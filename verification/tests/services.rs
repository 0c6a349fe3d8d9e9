//! The service modules around the transport: user store, router,
//! connections, user commands, crypto sessions, accounts and the web
//! front door.

use qaul_ble::connections::Connections;
use qaul_ble::connections::InternetConfig;
use qaul_ble::crypto_session::CryptoSessionManager;
use qaul_ble::http_server::HttpServer;
use qaul_ble::info::mac_to_string;
use qaul_ble::info::mac_to_u64;
use qaul_ble::info::u64_to_mac;
use qaul_ble::proto::get_last_bytes;
use qaul_ble::proto::get_last_num;
use qaul_ble::proto::push_field_bytes;
use qaul_ble::proto::read_fields;
use qaul_ble::proto::FieldVal;
use qaul_ble::qaul::Qaul;
use qaul_ble::router::Router;
use qaul_ble::router::RouterRpcRequest;
use qaul_ble::router::RoutingOptions;
use qaul_ble::store::Identity;
use qaul_ble::store::StoreError;
use qaul_ble::store::User;
use qaul_ble::store::UserProfile;
use qaul_ble::store::UserStore;
use qaul_ble::user_accounts::AccountsRpcRequest;
use qaul_ble::user_accounts::ConfigUserAccount;
use qaul_ble::user_accounts::UserAccounts;
use qaul_ble::users::Users;
use qaul_ble::users::UsersCliAction;

fn profile(id: &[u8], name: &[u8]) -> UserProfile {
    UserProfile {
        id: Identity(id.to_vec()),
        display_name: name.to_vec(),
        real_name: Vec::new(),
    }
}

#[test]
fn user_store_files_and_finds() {
    let mut store = UserStore::new();
    store.add_user(User::Local(profile(b"a", b"alpha")));
    store.add_user(User::Remote(profile(b"b", b"beta")));
    let got = store.get(&Identity(b"a".to_vec())).expect("filed user is found");
    assert_eq!(got.display_name, b"alpha".to_vec());
    match store.get(&Identity(b"zz".to_vec())) {
        Err(StoreError::UnknownUser) => {}
        _ => panic!("an unknown identity is reported"),
    }
    assert_eq!(store.get_local().len(), 1);
    assert_eq!(store.get_remote().len(), 1);
    assert_eq!(store.get_local()[0].id.0, b"a".to_vec());
    assert_eq!(store.get_remote()[0].id.0, b"b".to_vec());
}

#[test]
fn user_store_replaces_under_same_identity() {
    let mut store = UserStore::new();
    store.add_user(User::Local(profile(b"a", b"first")));
    store.add_user(User::Local(profile(b"a", b"second")));
    assert_eq!(store.get_local().len(), 1);
    assert_eq!(store.get_local()[0].display_name, b"second".to_vec());
}

#[test]
fn user_store_modify_applies_in_place() {
    let mut store = UserStore::new();
    store.add_user(User::Local(profile(b"a", b"old")));
    let r = store.modify(&Identity(b"a".to_vec()), |mut p: UserProfile| {
        p.display_name = b"new".to_vec();
        p
    });
    assert!(r.is_ok());
    assert_eq!(store.get_local()[0].display_name, b"new".to_vec());
    let r2 = store.modify(&Identity(b"q".to_vec()), |p: UserProfile| p);
    assert!(matches!(r2, Err(StoreError::UnknownUser)));
}

#[test]
fn router_keeps_configuration() {
    let router = Router::init(RoutingOptions {
        sending_table_period: 10,
        ping_neighbour_period: 5,
        hop_count_penalty: 10,
        maintain_period_limit: 300,
    });
    let cfg = router.get_configuration();
    assert_eq!(cfg.sending_table_period, 10);
    assert_eq!(cfg.maintain_period_limit, 300);
}

#[test]
fn router_rpc_names_the_table() {
    let empty: Vec<u8> = Vec::new();
    for (tag, expect_routing, expect_conn, expect_neigh) in [
        (1u64, true, false, false),
        (2, false, true, false),
        (3, false, false, true),
    ] {
        let mut req: Vec<u8> = Vec::new();
        push_field_bytes(&mut req, tag, &empty);
        let r = Router::rpc(&req);
        assert_eq!(matches!(r, RouterRpcRequest::RoutingTable), expect_routing);
        assert_eq!(matches!(r, RouterRpcRequest::Connections), expect_conn);
        assert_eq!(matches!(r, RouterRpcRequest::Neighbours), expect_neigh);
    }
    assert!(matches!(
        Router::rpc(&vec![0x80]),
        RouterRpcRequest::Unrecognized
    ));
    assert!(matches!(
        Router::rpc(&Vec::new()),
        RouterRpcRequest::Unrecognized
    ));
}

#[test]
fn users_cli_builds_requests() {
    match Users::cli("list") {
        UsersCliAction::Message(m) => {
            let fs = read_fields(&m).expect("the request decodes");
            assert!(matches!(fs.as_slice(), [FieldVal::Bytes(1, _)]));
        }
        _ => panic!("list builds a user list request"),
    }
    match Users::cli("online users please") {
        UsersCliAction::Message(m) => {
            let fs = read_fields(&m).expect("the request decodes");
            assert!(matches!(fs.as_slice(), [FieldVal::Bytes(2, _)]));
        }
        _ => panic!("online builds an online list request"),
    }
    assert!(matches!(Users::cli("matrix"), UsersCliAction::Matrix));
    assert!(matches!(Users::cli("dance"), UsersCliAction::Invalid));
    assert!(matches!(
        Users::cli("verify notvalid!!!"),
        UsersCliAction::Invalid
    ));
}

#[test]
fn users_cli_verify_carries_decoded_identifier() {
    let expected = vec![0xAAu8, 0xBB, 0xCC];
    let text = bs58::encode(&expected).into_string();
    let command = format!("verify {}", text);
    match Users::cli(&command) {
        UsersCliAction::Message(m) => {
            let fs = read_fields(&m).expect("the update decodes");
            match fs.as_slice() {
                [FieldVal::Bytes(4, entry)] => {
                    let efs = read_fields(entry).expect("the entry decodes");
                    assert_eq!(get_last_bytes(&efs, 2), Some(expected));
                    assert_eq!(get_last_num(&efs, 6), Some(1));
                    assert_eq!(get_last_num(&efs, 7), Some(0));
                }
                _ => panic!("the update carries one user entry"),
            }
        }
        _ => panic!("verify builds a user update"),
    }
}

#[test]
fn users_rpc_collects_online_users() {
    // A user list with one online and one offline entry.
    let mut online_entry: Vec<u8> = Vec::new();
    push_field_bytes(&mut online_entry, 1, &b"ann".to_vec());
    push_field_bytes(&mut online_entry, 2, &vec![1u8, 2, 3]);
    qaul_ble::proto::push_field_num(&mut online_entry, 5, 1);
    let mut offline_entry: Vec<u8> = Vec::new();
    push_field_bytes(&mut offline_entry, 1, &b"bob".to_vec());
    push_field_bytes(&mut offline_entry, 2, &vec![4u8]);
    qaul_ble::proto::push_field_num(&mut offline_entry, 5, 0);
    let mut list: Vec<u8> = Vec::new();
    push_field_bytes(&mut list, 1, &online_entry);
    push_field_bytes(&mut list, 1, &offline_entry);
    let mut msg: Vec<u8> = Vec::new();
    push_field_bytes(&mut msg, 5, &list);

    let pairs = Users::rpc(&msg).expect("a user list is recognized");
    assert_eq!(pairs.len(), 1);
    assert_eq!(pairs[0].0, b"ann".to_vec());
    assert_eq!(pairs[0].1, bs58::encode(vec![1u8, 2, 3]).into_string());
}

#[test]
fn peer_id_to_user_name_is_empty() {
    assert_eq!(Users::peer_id_to_user_name(), String::new());
}

#[test]
fn connections_add_valid_address() {
    let mut config = InternetConfig { peers: Vec::new() };
    let mut entry: Vec<u8> = Vec::new();
    push_field_bytes(&mut entry, 1, &b"/ip4/144.91.74.192/tcp/9229".to_vec());
    let mut req: Vec<u8> = Vec::new();
    push_field_bytes(&mut req, 2, &entry);
    let (resp, dial) = Connections::rpc(&req, &mut config);
    assert_eq!(config.peers.len(), 1);
    assert_eq!(dial, Some(b"/ip4/144.91.74.192/tcp/9229".to_vec()));
    let resp = resp.expect("a response is built");
    let fs = read_fields(&resp).expect("the response decodes");
    let body = get_last_bytes(&fs, 4).expect("the list is carried");
    let lfs = read_fields(&body).expect("the list decodes");
    assert_eq!(get_last_num(&lfs, 1), Some(1));
}

#[test]
fn connections_reject_invalid_address() {
    let mut config = InternetConfig { peers: Vec::new() };
    let mut entry: Vec<u8> = Vec::new();
    push_field_bytes(&mut entry, 1, &b"not an address".to_vec());
    let mut req: Vec<u8> = Vec::new();
    push_field_bytes(&mut req, 2, &entry);
    let (resp, dial) = Connections::rpc(&req, &mut config);
    assert!(config.peers.is_empty());
    assert!(dial.is_none());
    let fs = read_fields(&resp.unwrap()).unwrap();
    let body = get_last_bytes(&fs, 4).unwrap();
    let lfs = read_fields(&body).unwrap();
    assert_eq!(get_last_num(&lfs, 1), Some(2));
}

#[test]
fn connections_remove_address() {
    let mut config = InternetConfig {
        peers: vec![b"/ip4/1.2.3.4/tcp/80".to_vec(), b"/ip4/5.6.7.8/tcp/80".to_vec()],
    };
    let mut entry: Vec<u8> = Vec::new();
    push_field_bytes(&mut entry, 1, &b"/ip4/1.2.3.4/tcp/80".to_vec());
    let mut req: Vec<u8> = Vec::new();
    push_field_bytes(&mut req, 3, &entry);
    let (resp, _) = Connections::rpc(&req, &mut config);
    assert_eq!(config.peers, vec![b"/ip4/5.6.7.8/tcp/80".to_vec()]);
    let fs = read_fields(&resp.unwrap()).unwrap();
    let body = get_last_bytes(&fs, 4).unwrap();
    let lfs = read_fields(&body).unwrap();
    assert_eq!(get_last_num(&lfs, 1), Some(3));

    // Removing it again is reported as not found.
    let (resp2, _) = Connections::rpc(&req, &mut config);
    let fs2 = read_fields(&resp2.unwrap()).unwrap();
    let body2 = get_last_bytes(&fs2, 4).unwrap();
    let lfs2 = read_fields(&body2).unwrap();
    assert_eq!(get_last_num(&lfs2, 1), Some(4));
}

#[test]
fn crypto_second_handshake_round_trip() {
    let signature = vec![9u8, 8, 7];
    let msg = CryptoSessionManager::encode_second_handshake(&signature, 123456);
    // The messaging message carries the container, which carries the
    // handshake.
    let mfs = read_fields(&msg).expect("the messaging message decodes");
    let container = get_last_bytes(&mfs, 1).expect("the container is carried");
    let confirmation =
        CryptoSessionManager::process_cryptoservice_container(&container).expect("a handshake");
    assert_eq!(confirmation.signature, signature);
    assert_eq!(confirmation.received_at, 123456);
}

#[test]
fn crypto_create_message_carries_signature() {
    let msg = CryptoSessionManager::create_second_handshake_message(vec![1, 2, 3]);
    let mfs = read_fields(&msg).unwrap();
    let container = get_last_bytes(&mfs, 1).unwrap();
    let confirmation =
        CryptoSessionManager::process_cryptoservice_container(&container).unwrap();
    assert_eq!(confirmation.signature, vec![1, 2, 3]);
}

#[test]
fn qaul_starts_empty() {
    let q = Qaul::start();
    assert!(q.users.get_local().is_empty());
    assert!(q.contacts.is_empty());
}

#[test]
fn http_routes_cover_the_web_interface() {
    let routes = HttpServer::set_paths(&b"/srv/webgui".to_vec());
    assert_eq!(routes.len(), 15);
    assert_eq!(routes[0].route, b"/".to_vec());
    assert_eq!(routes[0].root, b"/srv/webgui".to_vec());
    assert_eq!(routes[2].route, b"/assets/".to_vec());
    assert_eq!(routes[2].root, b"/srv/webgui/assets".to_vec());
    assert_eq!(routes[14].route, b"/info/*".to_vec());
    assert_eq!(routes[14].root, b"/srv/webgui".to_vec());
}

#[test]
fn mac_text_is_uppercase_with_colons() {
    let mac = vec![0xAAu8, 0xBB, 0x0C, 0x1D, 0x2E, 0x3F];
    assert_eq!(mac_to_string(&mac), b"AA:BB:0C:1D:2E:3F".to_vec());
}

#[test]
fn mac_value_round_trip() {
    let mac = vec![0x01u8, 0x02, 0x03, 0x04, 0x05, 0x06];
    let v = mac_to_u64(&mac);
    assert_eq!(v, 0x010203040506);
    assert_eq!(u64_to_mac(v), mac);
}

#[test]
fn accounts_create_and_look_up() {
    let mut accounts = UserAccounts { users: Vec::new() };
    assert_eq!(accounts.len(), 0);
    assert!(accounts.get_default_user().is_none());
    let cfg = accounts.create(b"alice".to_vec()).expect("keys derive an identifier");
    assert_eq!(accounts.len(), 1);
    assert_eq!(cfg.name, b"alice".to_vec());
    let default = accounts.get_default_user().expect("the first account is default");
    assert_eq!(default.name, b"alice".to_vec());
    assert!(accounts.is_account(&default.id));
    assert!(!accounts.is_account(&b"missing".to_vec()));
    let found = accounts.get_by_id(&default.id).expect("lookup by identifier");
    assert_eq!(found.name, b"alice".to_vec());
    let info = accounts.get_user_info();
    assert_eq!(info.len(), 1);
    assert_eq!(info[0].1, b"alice".to_vec());

    // The configuration entry reloads into the same account.
    let reloaded = UserAccounts::init(&vec![cfg]);
    assert_eq!(reloaded.users.len(), 1);
    assert_eq!(reloaded.users[0].id, default.id);
}

#[test]
fn accounts_init_skips_unusable_keys() {
    let bad = ConfigUserAccount {
        name: b"broken".to_vec(),
        id: Vec::new(),
        keys: b"!!!not base64!!!".to_vec(),
    };
    let accounts = UserAccounts::init(&vec![bad]);
    assert!(accounts.users.is_empty());
}

#[test]
fn accounts_rpc_requests() {
    let empty: Vec<u8> = Vec::new();
    let mut get_req: Vec<u8> = Vec::new();
    push_field_bytes(&mut get_req, 1, &empty);
    assert!(matches!(
        UserAccounts::rpc(&get_req),
        AccountsRpcRequest::GetDefaultUserAccount
    ));
    let mut body: Vec<u8> = Vec::new();
    push_field_bytes(&mut body, 1, &b"carol".to_vec());
    let mut create_req: Vec<u8> = Vec::new();
    push_field_bytes(&mut create_req, 2, &body);
    match UserAccounts::rpc(&create_req) {
        AccountsRpcRequest::CreateUserAccount { name } => assert_eq!(name, b"carol".to_vec()),
        _ => panic!("a create request carries the name"),
    }
    assert!(matches!(
        UserAccounts::rpc(&vec![0x80]),
        AccountsRpcRequest::Unrecognized
    ));
}

#[test]
fn base58_texts_match_the_reference_encoder() {
    // The online-user fold carries the base58 text of each identifier;
    // hold it against the reference encoder.
    let id = vec![0xAAu8, 0xBB, 0xCC];
    let mut entry: Vec<u8> = Vec::new();
    push_field_bytes(&mut entry, 1, &b"ann".to_vec());
    push_field_bytes(&mut entry, 2, &id);
    qaul_ble::proto::push_field_num(&mut entry, 5, 1);
    let mut list: Vec<u8> = Vec::new();
    push_field_bytes(&mut list, 1, &entry);
    let mut msg: Vec<u8> = Vec::new();
    push_field_bytes(&mut msg, 5, &list);
    let pairs = Users::rpc(&msg).expect("a user list is recognized");
    assert_eq!(pairs[0].1, bs58::encode(&id).into_string());
}

#[test]
fn account_entry_matches_reference_encodings() {
    let mut accounts = UserAccounts { users: Vec::new() };
    let cfg = accounts.create(b"dora".to_vec()).expect("keys derive an identifier");
    let account = &accounts.users[0];

    // The stored key text is the standard base64 of the key-pair bytes.
    let expected_keys =
        base64::Engine::encode(&base64::engine::general_purpose::STANDARD, &account.keys);
    assert_eq!(cfg.keys, expected_keys.into_bytes());

    // The identifier and its text agree with the reference key stack.
    let mut key_bytes = account.keys.clone();
    let ed = libp2p::identity::ed25519::Keypair::try_from_bytes(&mut key_bytes)
        .expect("stored bytes form a key pair");
    let public_bytes = ed.public().to_bytes();
    let peer = libp2p::PeerId::from(libp2p::identity::Keypair::from(ed).public());
    assert_eq!(account.id, peer.to_bytes());
    assert_eq!(cfg.id, peer.to_base58().into_bytes());

    // The public key record agrees with the reference encoders.
    let (key_type, key_base58) =
        UserAccounts::get_protobuf_public_key(&account.keys).expect("ed25519 keys");
    assert_eq!(key_type, b"Ed25519".to_vec());
    assert_eq!(key_base58, bs58::encode(&public_bytes).into_string());

    // Reloading the configuration entry derives the same identifier.
    let reloaded = UserAccounts::init(&vec![cfg]);
    assert_eq!(reloaded.users[0].id, account.id);
}

#[test]
fn connections_init_keeps_modules() {
    let c = Connections::init(
        Some(qaul_ble::connections::Lan { active: true }),
        Some(qaul_ble::connections::Internet { active: true }),
    );
    assert!(c.lan.is_some());
    assert!(c.internet.is_some());
    let a = Connections::init_android(Some(qaul_ble::connections::Internet { active: true }));
    assert!(a.lan.is_none());
    assert!(a.internet.is_some());
}
