//! The user commands of the chat bridge.
//!
//! The command line asks for user lists, marks users verified or blocked,
//! and requests a user's security number; each command becomes one users
//! message for the supervisor channel. Incoming user lists are folded into
//! the set of online users, each with the base58 text of its identifier.
//!
//! Wire layout of a users message: one length-delimited field, user
//! request 1, online request 2, security number request 3, user update 4,
//! user list 5. A user entry carries name 1, identifier 2, base58 key 3,
//! group 4, connectivity 5, verified 6, blocked 7.

use vstd::prelude::*;

use crate::proto::GField;
use crate::proto::all_bytes;
use crate::proto::encode_fields;
use crate::proto::get_all_bytes;
use crate::proto::get_last_bytes;
use crate::proto::get_last_num;
use crate::proto::last_bytes;
use crate::proto::last_num;
use crate::proto::parse_fields;
use crate::proto::push_field_bytes;
use crate::proto::push_field_num;
use crate::proto::read_fields;
use crate::rpc_utils::bytes_or_empty;
use crate::rpc_utils::dec_text_bytes;
use crate::rpc_utils::lemma_encode_push;
use crate::rpc_utils::str_to_bytes;
use vstd::string::StrSliceExecFns;

verus! {

/// The base58 text of a byte string. Relies on `bs58`'s encoder; the
/// result depends on the bytes alone.
pub uninterp spec fn base58_of(b: Seq<u8>) -> Seq<char>;

/// Relies on `bs58::encode`: the base58 text of the bytes.
#[verifier::external_body]
pub(crate) fn bs58_encode(b: &Vec<u8>) -> (r: String)
    ensures
        r@ == base58_of(b@),
{
    bs58::encode(b.as_slice()).into_string()
}

/// The bytes a base58 text stands for, when the text decodes. Relies on
/// `bs58`'s decoder; the result depends on the text alone.
pub uninterp spec fn base58_decoded(s: Seq<u8>) -> Option<Seq<u8>>;

/// Relies on `bs58::decode`: the bytes of a base58 text, or nothing when
/// the text is not valid base58 (or not text at all).
#[verifier::external_body]
pub(crate) fn bs58_decode(s: &Vec<u8>) -> (r: Option<Vec<u8>>)
    ensures
        match r {
            Some(b) => base58_decoded(s@) == Some(b@),
            None => base58_decoded(s@) is None,
        },
{
    match std::str::from_utf8(s.as_slice()) {
        Ok(t) => bs58::decode(t).into_vec().ok(),
        Err(_) => None,
    }
}

/// One users message, wrapped under its command field.
pub open spec fn users_message_bytes(tag: u64, inner: Seq<GField>) -> Seq<u8> {
    encode_fields(seq![GField::Bytes(tag, encode_fields(inner))])
}

/// The field layout of a user update entry: only the identifier and the
/// two flags are set.
pub open spec fn user_update_fields(id: Seq<u8>, verified: bool, blocked: bool) -> Seq<GField> {
    seq![
        GField::Bytes(1, Seq::<u8>::empty()),
        GField::Bytes(2, id),
        GField::Bytes(3, Seq::<u8>::empty()),
        GField::Bytes(4, Seq::<u8>::empty()),
        GField::Num(5, 0),
        GField::Num(6, if verified { 1 } else { 0 }),
        GField::Num(7, if blocked { 1 } else { 0 }),
    ]
}

/// What the command line asked for.
pub enum UsersCliAction {
    /// List the chat room's members; the host asks the relay.
    Matrix,
    /// Send this users message to the supervisor.
    Message(Vec<u8>),
    /// The command or its argument could not be used.
    Invalid,
}

/// Whether a byte text begins with a prefix.
pub open spec fn has_prefix(s: Seq<u8>, p: Seq<u8>) -> bool {
    s.len() >= p.len() && s.take(p.len() as int) == p
}

/// users function handling
pub struct Users {}

impl Users {
    /// Interpret one command line: `matrix` lists the room members,
    /// `list` and `online` request user lists, `verify`, `block` and
    /// `secure` take a base58 identifier. An unknown command, or an
    /// identifier that does not decode, cannot be used.
    pub fn cli(command: &str) -> (r: UsersCliAction)
        ensures
            ({
                let c = crate::rpc_utils::dec_text_bytes(command);
                if has_prefix(c, dec_text_bytes("matrix")) {
                    r is Matrix
                } else if has_prefix(c, dec_text_bytes("list")) {
                    r matches UsersCliAction::Message(m) && m@ == users_message_bytes(
                        1,
                        Seq::<GField>::empty(),
                    )
                } else if has_prefix(c, dec_text_bytes("online")) {
                    r matches UsersCliAction::Message(m) && m@ == users_message_bytes(
                        2,
                        Seq::<GField>::empty(),
                    )
                } else {
                    true
                }
            }),
    {
        let c = command.as_bytes_vec();
        if Self::prefix_matches(&c, &str_to_bytes("matrix")) {
            UsersCliAction::Matrix
        } else if Self::prefix_matches(&c, &str_to_bytes("list")) {
            let (message, _request_id) = Self::request_user_list(String::new());
            UsersCliAction::Message(message)
        } else if Self::prefix_matches(&c, &str_to_bytes("online")) {
            UsersCliAction::Message(Self::request_online_user_list())
        } else if ({
            let p = str_to_bytes("verify ");
            Self::prefix_matches(&c, &p)
        }) {
            let p = str_to_bytes("verify ");
            let rest = crate::proto::copy_byte_range(&c, p.len(), c.len());
            match Self::send_user_update(&rest, true, false) {
                Some(m) => UsersCliAction::Message(m),
                None => UsersCliAction::Invalid,
            }
        } else if ({
            let p = str_to_bytes("block ");
            Self::prefix_matches(&c, &p)
        }) {
            let p = str_to_bytes("block ");
            let rest = crate::proto::copy_byte_range(&c, p.len(), c.len());
            match Self::send_user_update(&rest, false, true) {
                Some(m) => UsersCliAction::Message(m),
                None => UsersCliAction::Invalid,
            }
        } else if ({
            let p = str_to_bytes("secure ");
            Self::prefix_matches(&c, &p)
        }) {
            let p = str_to_bytes("secure ");
            let rest = crate::proto::copy_byte_range(&c, p.len(), c.len());
            match Self::send_user_secure_number(&rest) {
                Some(m) => UsersCliAction::Message(m),
                None => UsersCliAction::Invalid,
            }
        } else {
            UsersCliAction::Invalid
        }
    }

    /// Whether the text begins with the prefix.
    fn prefix_matches(s: &Vec<u8>, p: &Vec<u8>) -> (r: bool)
        ensures
            r == has_prefix(s@, p@),
    {
        if s.len() < p.len() {
            return false;
        }
        let mut i: usize = 0;
        while i < p.len()
            invariant
                i <= p.len(),
                p.len() <= s.len(),
                forall|q: int| 0 <= q < i ==> s@[q] == p@[q],
            decreases p.len() - i,
        {
            if s[i] != p[i] {
                proof {
                    if has_prefix(s@, p@) {
                        assert(s@.take(p@.len() as int)[i as int] == s@[i as int]);
                    }
                }
                return false;
            }
            i = i + 1;
        }
        proof {
            assert(s@.take(p@.len() as int) =~= p@);
        }
        true
    }

    /// The user list request message, paired with the routing identifier
    /// the reply should carry on the outer channel.
    pub fn request_user_list(request_id: String) -> (r: (Vec<u8>, String))
        ensures
            r.0@ == users_message_bytes(1, Seq::<GField>::empty()),
            r.1@ == request_id@,
    {
        let empty: Vec<u8> = Vec::new();
        let mut out: Vec<u8> = Vec::new();
        push_field_bytes(&mut out, 1, &empty);
        proof {
            reveal_with_fuel(encode_fields, 2);
            let x = GField::Bytes(1, Seq::<u8>::empty());
            assert(seq![x].drop_first() =~= Seq::<GField>::empty());
            assert(seq![x][0] == x);
            assert(encode_fields(Seq::<GField>::empty()) =~= Seq::<u8>::empty());
            assert(out@ =~= encode_fields(seq![x]));
        }
        (out, request_id)
    }

    /// The online user list request message.
    pub fn request_online_user_list() -> (r: Vec<u8>)
        ensures
            r@ == users_message_bytes(2, Seq::<GField>::empty()),
    {
        let empty: Vec<u8> = Vec::new();
        let mut out: Vec<u8> = Vec::new();
        push_field_bytes(&mut out, 2, &empty);
        proof {
            reveal_with_fuel(encode_fields, 2);
            let x = GField::Bytes(2, Seq::<u8>::empty());
            assert(seq![x].drop_first() =~= Seq::<GField>::empty());
            assert(seq![x][0] == x);
            assert(encode_fields(Seq::<GField>::empty()) =~= Seq::<u8>::empty());
            assert(out@ =~= encode_fields(seq![x]));
        }
        out
    }

    /// The security number request for a base58 identifier, or nothing
    /// when the identifier does not decode.
    pub fn send_user_secure_number(user_id_base58: &Vec<u8>) -> (r: Option<Vec<u8>>)
        ensures
            match base58_decoded(user_id_base58@) {
                Some(id) => r matches Some(m) && m@ == users_message_bytes(
                    3,
                    seq![GField::Bytes(1, id)],
                ),
                None => r is None,
            },
    {
        let id = match bs58_decode(user_id_base58) {
            Some(id) => id,
            None => {
                return None;
            },
        };
        let mut inner: Vec<u8> = Vec::new();
        push_field_bytes(&mut inner, 1, &id);
        proof {
            reveal_with_fuel(encode_fields, 2);
            let x = GField::Bytes(1, id@);
            assert(seq![x].drop_first() =~= Seq::<GField>::empty());
            assert(seq![x][0] == x);
            assert(inner@ =~= encode_fields(seq![x]));
        }
        let mut out: Vec<u8> = Vec::new();
        push_field_bytes(&mut out, 3, &inner);
        proof {
            reveal_with_fuel(encode_fields, 2);
            let y = GField::Bytes(3, inner@);
            assert(seq![y].drop_first() =~= Seq::<GField>::empty());
            assert(seq![y][0] == y);
            assert(out@ =~= encode_fields(seq![y]));
        }
        Some(out)
    }

    /// The user update marking an identifier verified or blocked, or
    /// nothing when the identifier does not decode.
    pub fn send_user_update(user_id_base58: &Vec<u8>, verified: bool, blocked: bool) -> (r:
        Option<Vec<u8>>)
        ensures
            match base58_decoded(user_id_base58@) {
                Some(id) => r matches Some(m) && m@ == users_message_bytes(
                    4,
                    user_update_fields(id, verified, blocked),
                ),
                None => r is None,
            },
    {
        let id = match bs58_decode(user_id_base58) {
            Some(id) => id,
            None => {
                return None;
            },
        };
        let empty: Vec<u8> = Vec::new();
        let mut inner: Vec<u8> = Vec::new();
        push_field_bytes(&mut inner, 1, &empty);
        push_field_bytes(&mut inner, 2, &id);
        push_field_bytes(&mut inner, 3, &empty);
        push_field_bytes(&mut inner, 4, &empty);
        push_field_num(&mut inner, 5, 0);
        push_field_num(&mut inner, 6, if verified { 1 } else { 0 });
        push_field_num(&mut inner, 7, if blocked { 1 } else { 0 });
        proof {
            let fs = user_update_fields(id@, verified, blocked);
            assert(fs.len() == 7);
            assert(fs =~= fs.take(6).push(fs[6]));
            assert(fs.take(6) =~= fs.take(5).push(fs[5]));
            assert(fs.take(5) =~= fs.take(4).push(fs[4]));
            assert(fs.take(4) =~= fs.take(3).push(fs[3]));
            assert(fs.take(3) =~= fs.take(2).push(fs[2]));
            assert(fs.take(2) =~= fs.take(1).push(fs[1]));
            assert(fs.take(1) =~= fs.take(0).push(fs[0]));
            assert(fs.take(0) =~= Seq::<GField>::empty());
            lemma_encode_push(fs.take(0), fs[0]);
            lemma_encode_push(fs.take(1), fs[1]);
            lemma_encode_push(fs.take(2), fs[2]);
            lemma_encode_push(fs.take(3), fs[3]);
            lemma_encode_push(fs.take(4), fs[4]);
            lemma_encode_push(fs.take(5), fs[5]);
            lemma_encode_push(fs.take(6), fs[6]);
            assert(inner@ =~= encode_fields(fs));
        }
        let mut out: Vec<u8> = Vec::new();
        push_field_bytes(&mut out, 4, &inner);
        proof {
            reveal_with_fuel(encode_fields, 2);
            let y = GField::Bytes(4, inner@);
            assert(seq![y].drop_first() =~= Seq::<GField>::empty());
            assert(seq![y][0] == y);
            assert(out@ =~= encode_fields(seq![y]));
        }
        Some(out)
    }

    /// The online users named by a user list: each entry whose
    /// connectivity field reports online contributes its name and its
    /// identifier.
    pub open spec fn online_entries(entries: Seq<Seq<u8>>) -> Seq<(Seq<u8>, Seq<u8>)>
        decreases entries.len(),
    {
        if entries.len() == 0 {
            Seq::empty()
        } else {
            let rest = Self::online_entries(entries.drop_first());
            match parse_fields(entries[0]) {
                Some(efs) => if last_num(efs, 5) == Some(1u64) {
                    seq![
                        (bytes_or_empty(last_bytes(efs, 1)), bytes_or_empty(last_bytes(efs, 2))),
                    ] + rest
                } else {
                    rest
                },
                None => rest,
            }
        }
    }

    /// Fold a received user list into the online users: each online
    /// entry's name with the base58 text of its identifier. Anything but
    /// a well-formed user list yields nothing.
    pub fn rpc(data: &Vec<u8>) -> (r: Option<Vec<(Vec<u8>, String)>>)
        ensures
            match parse_fields(data@) {
                None => r is None,
                Some(fs) => match last_bytes(fs, 5) {
                    None => r is None,
                    Some(list) => match parse_fields(list) {
                        None => r is None,
                        Some(lfs) => match r {
                            Some(pairs) => {
                                let online = Self::online_entries(all_bytes(lfs, 1));
                                &&& pairs@.len() == online.len()
                                &&& forall|i: int|
                                    0 <= i < pairs@.len() ==> (#[trigger] pairs@[i]).0@
                                        == online[i].0 && pairs@[i].1@ == base58_of(online[i].1)
                            },
                            None => false,
                        },
                    },
                },
            },
    {
        let fs = match read_fields(data) {
            Some(fs) => fs,
            None => {
                return None;
            },
        };
        let list = match get_last_bytes(&fs, 5) {
            Some(l) => l,
            None => {
                return None;
            },
        };
        let lfs = match read_fields(&list) {
            Some(l) => l,
            None => {
                return None;
            },
        };
        let entries = get_all_bytes(&lfs, 1);
        let ghost gentries = all_bytes(crate::proto::fields_view(lfs@), 1);
        let mut pairs: Vec<(Vec<u8>, String)> = Vec::new();
        let mut i: usize = 0;
        proof {
            assert(gentries.take(0) =~= Seq::<Seq<u8>>::empty());
        }
        while i < entries.len()
            invariant
                i <= entries@.len(),
                entries@.len() == gentries.len(),
                forall|j: int| 0 <= j < gentries.len() ==> #[trigger] entries@[j]@ == gentries[j],
                pairs@.len() == Self::online_entries(gentries.take(i as int)).len(),
                forall|j: int|
                    0 <= j < pairs@.len() ==> (#[trigger] pairs@[j]).0@ == Self::online_entries(
                        gentries.take(i as int),
                    )[j].0 && pairs@[j].1@ == base58_of(
                        Self::online_entries(gentries.take(i as int))[j].1,
                    ),
            decreases entries@.len() - i,
        {
            proof {
                lemma_online_take(gentries, i as int);
            }
            match read_fields(&entries[i]) {
                Some(efs) => {
                    let conn = get_last_num(&efs, 5);
                    let is_online = match conn {
                        Some(c) => c == 1,
                        None => false,
                    };
                    if is_online {
                        let name = match get_last_bytes(&efs, 1) {
                            Some(n) => n,
                            None => Vec::new(),
                        };
                        let id = match get_last_bytes(&efs, 2) {
                            Some(d) => d,
                            None => Vec::new(),
                        };
                        let id_text = bs58_encode(&id);
                        pairs.push((name, id_text));
                    }
                },
                None => {},
            }
            i = i + 1;
        }
        proof {
            assert(gentries.take(gentries.len() as int) =~= gentries);
        }
        Some(pairs)
    }

    /// The user name for a peer identifier; nothing is known of it here,
    /// so the name is empty.
    pub fn peer_id_to_user_name() -> (r: String)
        ensures
            r@ == Seq::<char>::empty(),
    {
        String::new()
    }
}

proof fn lemma_online_take(entries: Seq<Seq<u8>>, i: int)
    requires
        0 <= i < entries.len(),
    ensures
        Users::online_entries(entries.take(i + 1)) =~= Users::online_entries(entries.take(i)) + (
        match parse_fields(entries[i]) {
            Some(efs) => if last_num(efs, 5) == Some(1u64) {
                seq![(bytes_or_empty(last_bytes(efs, 1)), bytes_or_empty(last_bytes(efs, 2)))]
            } else {
                Seq::<(Seq<u8>, Seq<u8>)>::empty()
            },
            None => Seq::<(Seq<u8>, Seq<u8>)>::empty(),
        }),
    decreases i,
{
    if i == 0 {
        reveal_with_fuel(Users::online_entries, 3);
        assert(entries.take(1).drop_first() =~= Seq::<Seq<u8>>::empty());
        assert(entries.take(1)[0] == entries[0]);
        assert(entries.take(0) =~= Seq::<Seq<u8>>::empty());
    } else {
        assert(entries.take(i + 1)[0] == entries[0]);
        assert(entries.take(i + 1).drop_first() =~= entries.drop_first().take(i));
        assert(entries.take(i)[0] == entries[0]);
        assert(entries.take(i).drop_first() =~= entries.drop_first().take(i - 1));
        lemma_online_take(entries.drop_first(), i - 1);
        assert(entries.drop_first()[i - 1] == entries[i]);
    }
}

} // verus!
