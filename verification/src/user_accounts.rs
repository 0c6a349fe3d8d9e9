//! User accounts: each user is a key pair, its peer identifier (the hash
//! of the public key) and a name.
//!
//! Key material is carried as the ed25519 key-pair bytes; deriving the
//! peer identifier, the protobuf form of the public key and the textual
//! encodings are the key stack's work, reached through its functions
//! below. The account table itself (lookup, defaults, listing) is plain
//! logic over those bytes.

use vstd::prelude::*;

use crate::peers::bytes_eq;
use crate::proto::clone_bytes;
use crate::proto::last_bytes;
use crate::proto::parse_fields;
use crate::proto::read_fields;
use crate::rpc_utils::bytes_or_empty;
use crate::users::base58_of;
use crate::users::bs58_encode;

verus! {

/// The bytes a base64 text stands for, when it decodes. Relies on
/// `base64`'s decoder; the result depends on the text alone.
pub uninterp spec fn base64_decoded(s: Seq<u8>) -> Option<Seq<u8>>;

/// Relies on `base64`'s standard-alphabet decoder.
#[verifier::external_body]
pub(crate) fn base64_decode(s: &Vec<u8>) -> (r: Option<Vec<u8>>)
    ensures
        match r {
            Some(b) => base64_decoded(s@) == Some(b@),
            None => base64_decoded(s@) is None,
        },
{
    match std::str::from_utf8(s.as_slice()) {
        Ok(t) => base64::Engine::decode(&base64::engine::general_purpose::STANDARD, t).ok(),
        Err(_) => None,
    }
}

/// The base64 text of a byte string. Relies on `base64`'s encoder; the
/// result depends on the bytes alone.
pub uninterp spec fn base64_of(b: Seq<u8>) -> Seq<u8>;

/// Relies on `base64`'s standard-alphabet encoder.
#[verifier::external_body]
pub(crate) fn base64_encode(b: &Vec<u8>) -> (r: Vec<u8>)
    ensures
        r@ == base64_of(b@),
{
    base64::Engine::encode(&base64::engine::general_purpose::STANDARD, b.as_slice()).into_bytes()
}

/// The peer identifier derived from ed25519 key-pair bytes, when they
/// form a key pair. Relies on the key stack; the result depends on the
/// bytes alone.
pub uninterp spec fn peer_id_of_keys(kb: Seq<u8>) -> Option<Seq<u8>>;

/// Relies on `libp2p`'s identity stack: rebuild the ed25519 key pair from
/// its bytes and derive the peer identifier from its public key.
#[verifier::external_body]
pub(crate) fn derive_peer_id(kb: &Vec<u8>) -> (r: Option<Vec<u8>>)
    ensures
        match r {
            Some(id) => peer_id_of_keys(kb@) == Some(id@),
            None => peer_id_of_keys(kb@) is None,
        },
{
    let mut bytes = kb.clone();
    match libp2p::identity::ed25519::Keypair::try_from_bytes(&mut bytes) {
        Ok(ed) => {
            let keys = libp2p::identity::Keypair::from(ed);
            Some(libp2p::PeerId::from(keys.public()).to_bytes())
        },
        Err(_) => None,
    }
}

/// The base58 text of a peer identifier, when the bytes are one. Relies
/// on `libp2p`'s identifier formatting; the result depends on the bytes
/// alone.
pub uninterp spec fn peer_base58_of(id: Seq<u8>) -> Option<Seq<char>>;

/// Relies on `libp2p::PeerId`: parse the identifier bytes and format the
/// base58 text.
#[verifier::external_body]
pub(crate) fn peer_id_base58(id: &Vec<u8>) -> (r: Option<String>)
    ensures
        match r {
            Some(s) => peer_base58_of(id@) == Some(s@),
            None => peer_base58_of(id@) is None,
        },
{
    match libp2p::PeerId::from_bytes(id.as_slice()) {
        Ok(p) => Some(p.to_base58()),
        Err(_) => None,
    }
}

/// The ed25519 public key bytes of a key pair, when the bytes form one.
/// Relies on the key stack; the result depends on the bytes alone.
pub uninterp spec fn public_of_keys(kb: Seq<u8>) -> Option<Seq<u8>>;

/// Relies on `libp2p`'s ed25519 keys: the public half of a key pair.
#[verifier::external_body]
pub(crate) fn ed25519_public_bytes(kb: &Vec<u8>) -> (r: Option<Vec<u8>>)
    ensures
        match r {
            Some(p) => public_of_keys(kb@) == Some(p@),
            None => public_of_keys(kb@) is None,
        },
{
    let mut bytes = kb.clone();
    match libp2p::identity::ed25519::Keypair::try_from_bytes(&mut bytes) {
        Ok(ed) => Some(ed.public().to_bytes().to_vec()),
        Err(_) => None,
    }
}

/// Relies on `libp2p`'s key generation: a fresh ed25519 key pair, as its
/// bytes. The result is drawn at random, so nothing is promised of it.
#[verifier::external_body]
pub(crate) fn generate_keypair_bytes() -> (r: Vec<u8>)
    ensures
        true,
{
    let keys = libp2p::identity::Keypair::generate_ed25519();
    match keys.try_into_ed25519() {
        Ok(ed) => ed.to_bytes().to_vec(),
        Err(_) => Vec::new(),
    }
}

/// One user account: the peer identifier, the key-pair bytes and a name.
pub struct UserAccount {
    pub id: Vec<u8>,
    pub keys: Vec<u8>,
    pub name: Vec<u8>,
}

/// One configured account: the name, the base58 identifier text and the
/// base64 key text, as the configuration stores them.
pub struct ConfigUserAccount {
    pub name: Vec<u8>,
    pub id: Vec<u8>,
    pub keys: Vec<u8>,
}

/// The accounts a configuration yields: each entry whose key text decodes
/// and whose key bytes form a key pair, with its derived identifier.
pub open spec fn accounts_of(cfgs: Seq<(Seq<u8>, Seq<u8>)>) -> Seq<(Seq<u8>, Seq<u8>)>
    decreases cfgs.len(),
{
    if cfgs.len() == 0 {
        Seq::empty()
    } else {
        let rest = accounts_of(cfgs.drop_first());
        match base64_decoded(cfgs[0].1) {
            Some(kb) => match peer_id_of_keys(kb) {
                Some(id) => seq![(cfgs[0].0, id)] + rest,
                None => rest,
            },
            None => rest,
        }
    }
}

/// The registered user accounts of this node.
pub struct UserAccounts {
    pub users: Vec<UserAccount>,
}

/// What an accounts request asks for.
pub enum AccountsRpcRequest {
    GetDefaultUserAccount,
    CreateUserAccount { name: Vec<u8> },
    Unrecognized,
}

impl UserAccounts {
    /// Load the configured accounts: each entry whose stored key text
    /// decodes to a key pair joins the table under its derived
    /// identifier; an entry whose keys cannot be used is left out. (The
    /// stored identifier text is the derived one's record; a mismatch is
    /// the configuration's error and does not unseat the derived one.)
    pub fn init(config_users: &Vec<ConfigUserAccount>) -> (r: UserAccounts)
        ensures
            ({
                let expected = accounts_of(
                    config_users@.map_values(|c: ConfigUserAccount| (c.name@, c.keys@)),
                );
                &&& r.users@.len() == expected.len()
                &&& forall|i: int|
                    0 <= i < r.users@.len() ==> (#[trigger] r.users@[i]).name@ == expected[i].0
                        && r.users@[i].id@ == expected[i].1
            }),
    {
        let mut users: Vec<UserAccount> = Vec::new();
        let ghost cfgs = config_users@.map_values(|c: ConfigUserAccount| (c.name@, c.keys@));
        let mut i: usize = 0;
        proof {
            assert(cfgs.take(0) =~= Seq::<(Seq<u8>, Seq<u8>)>::empty());
        }
        while i < config_users.len()
            invariant
                i <= config_users@.len(),
                cfgs == config_users@.map_values(|c: ConfigUserAccount| (c.name@, c.keys@)),
                cfgs.len() == config_users@.len(),
                users@.len() == accounts_of(cfgs.take(i as int)).len(),
                forall|j: int|
                    0 <= j < users@.len() ==> (#[trigger] users@[j]).name@ == accounts_of(
                        cfgs.take(i as int),
                    )[j].0 && users@[j].id@ == accounts_of(cfgs.take(i as int))[j].1,
            decreases config_users@.len() - i,
        {
            proof {
                lemma_accounts_take(cfgs, i as int);
                assert(cfgs[i as int] == (config_users@[i as int].name@,
                config_users@[i as int].keys@));
            }
            match base64_decode(&config_users[i].keys) {
                Some(kb) => {
                    match derive_peer_id(&kb) {
                        Some(id) => {
                            let account = UserAccount {
                                id,
                                keys: kb,
                                name: clone_bytes(&config_users[i].name),
                            };
                            users.push(account);
                        },
                        None => {},
                    }
                },
                None => {},
            }
            i = i + 1;
        }
        proof {
            assert(cfgs.take(cfgs.len() as int) =~= cfgs);
        }
        UserAccounts { users }
    }

    /// Create an account: a fresh key pair joins the table under its
    /// derived identifier, and the entry for the configuration is handed
    /// back (name, base58 identifier text, base64 key text). A key pair
    /// whose identifier cannot be derived yields nothing and changes
    /// nothing.
    pub fn create(&mut self, name: Vec<u8>) -> (r: Option<ConfigUserAccount>)
        ensures
            match r {
                Some(cfg) => {
                    &&& final(self).users@.len() == old(self).users@.len() + 1
                    &&& (forall|i: int|
                        0 <= i < old(self).users@.len() ==> #[trigger] final(self).users@[i]
                            == old(self).users@[i])
                    &&& final(self).users@.last().name@ == name@
                    &&& cfg.name@ == name@
                    &&& cfg.keys@ == base64_of(final(self).users@.last().keys@)
                    &&& peer_id_of_keys(final(self).users@.last().keys@) == Some(
                        final(self).users@.last().id@,
                    )
                    &&& (match peer_base58_of(final(self).users@.last().id@) {
                        Some(t) => cfg.id@ == vstd::utf8::encode_utf8(t),
                        None => cfg.id@.len() == 0,
                    })
                },
                None => *final(self) == *old(self),
            },
    {
        let keys = generate_keypair_bytes();
        let id = match derive_peer_id(&keys) {
            Some(id) => id,
            None => {
                return None;
            },
        };
        let keys_config = base64_encode(&keys);
        let id_text: Vec<u8> = match peer_id_base58(&id) {
            Some(s) => crate::rpc_utils::str_to_bytes(s.as_str()),
            None => Vec::new(),
        };
        let cfg = ConfigUserAccount {
            name: clone_bytes(&name),
            id: id_text,
            keys: keys_config,
        };
        let account = UserAccount { id, keys, name };
        self.users.push(account);
        Some(cfg)
    }

    /// The account registered under an identifier, if any: the first
    /// match.
    pub fn get_by_id(&self, account_id: &Vec<u8>) -> (r: Option<UserAccount>)
        ensures
            match r {
                Some(a) => exists|i: int|
                    0 <= i < self.users@.len() && (#[trigger] self.users@[i]).id@ == account_id@
                        && a.id@ == account_id@ && a.name@ == self.users@[i].name@ && a.keys@
                        == self.users@[i].keys@,
                None => forall|i: int|
                    0 <= i < self.users@.len() ==> (#[trigger] self.users@[i]).id@ != account_id@,
            },
    {
        let mut i: usize = 0;
        while i < self.users.len()
            invariant
                i <= self.users@.len(),
                forall|q: int| 0 <= q < i ==> (#[trigger] self.users@[q]).id@ != account_id@,
            decreases self.users@.len() - i,
        {
            if bytes_eq(&self.users[i].id, account_id) {
                let a = UserAccount {
                    id: clone_bytes(&self.users[i].id),
                    keys: clone_bytes(&self.users[i].keys),
                    name: clone_bytes(&self.users[i].name),
                };
                proof {
                    assert(0 <= i < self.users@.len() && self.users@[i as int].id@ == account_id@);
                }
                return Some(a);
            }
            i = i + 1;
        }
        None
    }

    /// How many accounts this node registered.
    pub fn len(&self) -> (r: usize)
        ensures
            r == self.users@.len(),
    {
        self.users.len()
    }

    /// The default account: the first registered one.
    pub fn get_default_user(&self) -> (r: Option<UserAccount>)
        ensures
            match r {
                Some(a) => self.users@.len() > 0 && a.id@ == self.users@[0].id@ && a.keys@
                    == self.users@[0].keys@ && a.name@ == self.users@[0].name@,
                None => self.users@.len() == 0,
            },
    {
        if self.users.len() == 0 {
            return None;
        }
        Some(
            UserAccount {
                id: clone_bytes(&self.users[0].id),
                keys: clone_bytes(&self.users[0].keys),
                name: clone_bytes(&self.users[0].name),
            },
        )
    }

    /// Every account's identifier and name, for the routing table.
    pub fn get_user_info(&self) -> (r: Vec<(Vec<u8>, Vec<u8>)>)
        ensures
            r@.len() == self.users@.len(),
            forall|i: int|
                0 <= i < r@.len() ==> (#[trigger] r@[i]).0@ == self.users@[i].id@ && r@[i].1@
                    == self.users@[i].name@,
    {
        let mut out: Vec<(Vec<u8>, Vec<u8>)> = Vec::new();
        let mut i: usize = 0;
        while i < self.users.len()
            invariant
                i <= self.users@.len(),
                out@.len() == i,
                forall|j: int|
                    0 <= j < i ==> (#[trigger] out@[j]).0@ == self.users@[j].id@ && out@[j].1@
                        == self.users@[j].name@,
            decreases self.users@.len() - i,
        {
            out.push((clone_bytes(&self.users[i].id), clone_bytes(&self.users[i].name)));
            i = i + 1;
        }
        out
    }

    /// Whether an account with the identifier exists.
    pub fn is_account(&self, user_id: &Vec<u8>) -> (r: bool)
        ensures
            r == exists|i: int|
                0 <= i < self.users@.len() && (#[trigger] self.users@[i]).id@ == user_id@,
    {
        let mut i: usize = 0;
        while i < self.users.len()
            invariant
                i <= self.users@.len(),
                forall|q: int| 0 <= q < i ==> (#[trigger] self.users@[q]).id@ != user_id@,
            decreases self.users@.len() - i,
        {
            if bytes_eq(&self.users[i].id, user_id) {
                proof {
                    assert(0 <= i < self.users@.len() && self.users@[i as int].id@ == user_id@);
                }
                return true;
            }
            i = i + 1;
        }
        false
    }

    /// Decode one accounts request: get the default account (field 1) or
    /// create one under a name (field 2, its field 1 the name).
    pub fn rpc(data: &Vec<u8>) -> (r: AccountsRpcRequest)
        ensures
            match parse_fields(data@) {
                None => r is Unrecognized,
                Some(fs) => {
                    if last_bytes(fs, 2) is Some {
                        match parse_fields(last_bytes(fs, 2).unwrap()) {
                            Some(cfs) => r matches AccountsRpcRequest::CreateUserAccount { name }
                                && name@ == bytes_or_empty(last_bytes(cfs, 1)),
                            None => r is Unrecognized,
                        }
                    } else if last_bytes(fs, 1) is Some {
                        r is GetDefaultUserAccount
                    } else {
                        r is Unrecognized
                    }
                },
            },
    {
        let fs = match read_fields(data) {
            Some(fs) => fs,
            None => {
                return AccountsRpcRequest::Unrecognized;
            },
        };
        match crate::proto::get_last_bytes(&fs, 2) {
            Some(body) => {
                let cfs = match read_fields(&body) {
                    Some(c) => c,
                    None => {
                        return AccountsRpcRequest::Unrecognized;
                    },
                };
                let name = match crate::proto::get_last_bytes(&cfs, 1) {
                    Some(n) => n,
                    None => Vec::new(),
                };
                AccountsRpcRequest::CreateUserAccount { name }
            },
            None => {
                match crate::proto::get_last_bytes(&fs, 1) {
                    Some(b) => AccountsRpcRequest::GetDefaultUserAccount,
                    None => AccountsRpcRequest::Unrecognized,
                }
            },
        }
    }

    /// The protobuf key record of an account's public key: the key type
    /// text and the base58 text of the public key bytes.
    pub fn get_protobuf_public_key(keys: &Vec<u8>) -> (r: Option<(Vec<u8>, String)>)
        ensures
            match public_of_keys(keys@) {
                Some(pk) => r matches Some(p) && p.0@ == crate::rpc_utils::dec_text_bytes(
                    "Ed25519",
                ) && p.1@ == base58_of(pk),
                None => r is None,
            },
    {
        let public = match ed25519_public_bytes(keys) {
            Some(p) => p,
            None => {
                return None;
            },
        };
        let key_type = crate::rpc_utils::str_to_bytes("Ed25519");
        let key_base58 = bs58_encode(&public);
        Some((key_type, key_base58))
    }
}

proof fn lemma_accounts_take(cfgs: Seq<(Seq<u8>, Seq<u8>)>, i: int)
    requires
        0 <= i < cfgs.len(),
    ensures
        accounts_of(cfgs.take(i + 1)) =~= accounts_of(cfgs.take(i)) + (match base64_decoded(
            cfgs[i].1,
        ) {
            Some(kb) => match peer_id_of_keys(kb) {
                Some(id) => seq![(cfgs[i].0, id)],
                None => Seq::<(Seq<u8>, Seq<u8>)>::empty(),
            },
            None => Seq::<(Seq<u8>, Seq<u8>)>::empty(),
        }),
    decreases i,
{
    if i == 0 {
        reveal_with_fuel(accounts_of, 3);
        assert(cfgs.take(1).drop_first() =~= Seq::<(Seq<u8>, Seq<u8>)>::empty());
        assert(cfgs.take(1)[0] == cfgs[0]);
        assert(cfgs.take(0) =~= Seq::<(Seq<u8>, Seq<u8>)>::empty());
    } else {
        assert(cfgs.take(i + 1)[0] == cfgs[0]);
        assert(cfgs.take(i + 1).drop_first() =~= cfgs.drop_first().take(i));
        assert(cfgs.take(i)[0] == cfgs[0]);
        assert(cfgs.take(i).drop_first() =~= cfgs.drop_first().take(i - 1));
        lemma_accounts_take(cfgs.drop_first(), i - 1);
        assert(cfgs.drop_first()[i - 1] == cfgs[i]);
    }
}

} // verus!
