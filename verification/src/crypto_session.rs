//! Crypto session handling: confirmation of second-handshake messages.
//!
//! A second handshake travels inside a crypto-service container (its one
//! message kind, field 1), which in turn travels as the crypto-service
//! content (field 1) of a messaging message. The handshake carries the
//! confirmed signature (field 1) and the reception time (field 2).

use vstd::prelude::*;

use crate::proto::GField;
use crate::proto::encode_fields;
use crate::proto::get_last_bytes;
use crate::proto::get_last_num;
use crate::proto::last_bytes;
use crate::proto::last_num;
use crate::proto::parse_fields;
use crate::proto::push_field_bytes;
use crate::proto::push_field_num;
use crate::proto::read_fields;
use crate::rpc_utils::bytes_or_empty;

verus! {

/// A confirmation to send back for a received message.
pub struct Confirmation {
    pub signature: Vec<u8>,
    pub received_at: u64,
}

/// The field layout of a second handshake.
pub open spec fn second_handshake_fields(signature: Seq<u8>, received_at: u64) -> Seq<GField> {
    seq![GField::Bytes(1, signature), GField::Num(2, received_at)]
}

/// The wire text of the messaging message that carries a second
/// handshake: the handshake inside the container, the container as the
/// crypto-service content.
pub open spec fn second_handshake_message_bytes(signature: Seq<u8>, received_at: u64) -> Seq<u8> {
    encode_fields(
        seq![
            GField::Bytes(
                1,
                encode_fields(
                    seq![
                        GField::Bytes(
                            1,
                            encode_fields(second_handshake_fields(signature, received_at)),
                        ),
                    ],
                ),
            ),
        ],
    )
}

/// Relies on the system clock: milliseconds since the epoch. The value
/// depends on when the call runs, so nothing is promised of it.
#[verifier::external_body]
fn now_millis() -> (r: u64)
    ensures
        true,
{
    match std::time::SystemTime::now().duration_since(std::time::UNIX_EPOCH) {
        Ok(d) => d.as_millis() as u64,
        Err(_) => 0,
    }
}

/// Crypto session management.
pub struct CryptoSessionManager {}

impl CryptoSessionManager {
    /// Encode the second-handshake messaging message for a signature and
    /// a reception time.
    pub fn encode_second_handshake(signature: &Vec<u8>, received_at: u64) -> (r: Vec<u8>)
        ensures
            r@ == second_handshake_message_bytes(signature@, received_at),
    {
        let mut hs: Vec<u8> = Vec::new();
        push_field_bytes(&mut hs, 1, signature);
        push_field_num(&mut hs, 2, received_at);
        proof {
            let a = GField::Bytes(1, signature@);
            let b = GField::Num(2, received_at);
            reveal_with_fuel(encode_fields, 3);
            assert(seq![a, b].drop_first() =~= seq![b]);
            assert(seq![a, b][0] == a);
            assert(seq![b].drop_first() =~= Seq::<GField>::empty());
            assert(seq![b][0] == b);
            assert(hs@ =~= encode_fields(seq![a, b]));
        }
        let mut container: Vec<u8> = Vec::new();
        push_field_bytes(&mut container, 1, &hs);
        proof {
            let c = GField::Bytes(1, hs@);
            reveal_with_fuel(encode_fields, 2);
            assert(seq![c].drop_first() =~= Seq::<GField>::empty());
            assert(seq![c][0] == c);
            assert(container@ =~= encode_fields(seq![c]));
        }
        let mut msg: Vec<u8> = Vec::new();
        push_field_bytes(&mut msg, 1, &container);
        proof {
            let m = GField::Bytes(1, container@);
            reveal_with_fuel(encode_fields, 2);
            assert(seq![m].drop_first() =~= Seq::<GField>::empty());
            assert(seq![m][0] == m);
            assert(msg@ =~= encode_fields(seq![m]));
        }
        msg
    }

    /// Build the binary messaging message confirming a signature, stamped
    /// with the clock's current time.
    pub fn create_second_handshake_message(signature: Vec<u8>) -> (r: Vec<u8>)
        ensures
            exists|t: u64| r@ == second_handshake_message_bytes(signature@, t),
    {
        let received_at = now_millis();
        let r = Self::encode_second_handshake(&signature, received_at);
        proof {
            assert(r@ == second_handshake_message_bytes(signature@, received_at));
        }
        r
    }

    /// Decode a crypto-service container and hand back the confirmation
    /// its second handshake asks for: the signature it confirms and the
    /// reception time it reports. A container without a handshake, or one
    /// that is not well-formed protobuf, yields nothing.
    pub fn process_cryptoservice_container(data: &Vec<u8>) -> (r: Option<Confirmation>)
        ensures
            match parse_fields(data@) {
                None => r is None,
                Some(fs) => match last_bytes(fs, 1) {
                    None => r is None,
                    Some(hs) => match parse_fields(hs) {
                        None => r is None,
                        Some(hfs) => match r {
                            Some(c) => c.signature@ == bytes_or_empty(last_bytes(hfs, 1))
                                && c.received_at == (match last_num(hfs, 2) {
                                Some(t) => t,
                                None => 0,
                            }),
                            None => false,
                        },
                    },
                },
            },
    {
        let fs = match read_fields(data) {
            Some(fs) => fs,
            None => {
                return None;
            },
        };
        let hs = match get_last_bytes(&fs, 1) {
            Some(h) => h,
            None => {
                return None;
            },
        };
        let hfs = match read_fields(&hs) {
            Some(h) => h,
            None => {
                return None;
            },
        };
        let signature = match get_last_bytes(&hfs, 1) {
            Some(sg) => sg,
            None => Vec::new(),
        };
        let received_at = match get_last_num(&hfs, 2) {
            Some(t) => t,
            None => 0,
        };
        Some(Self::process_second_handshake(signature, received_at))
    }

    /// The confirmation for one received second handshake.
    pub fn process_second_handshake(signature: Vec<u8>, received_at: u64) -> (r: Confirmation)
        ensures
            r.signature@ == signature@,
            r.received_at == received_at,
    {
        Confirmation { signature, received_at }
    }
}

} // verus!
