//! The connection modules and the internet-nodes request channel.
//!
//! The connection collection names which link-layer modules run; the
//! request channel lets the supervisor list, add and remove the statically
//! configured internet peers. An added address is kept only when it parses
//! as a network address; the response always carries the resulting list.
//!
//! Wire layout: a request is one length-delimited field, nodes request 1,
//! nodes add 2, nodes remove 3, each holding an entry whose field 1 is the
//! address text; the response list carries an outcome code in field 1 and
//! one entry per configured address in field 2, wrapped as envelope
//! field 4.

use vstd::prelude::*;

use crate::proto::FieldVal;
use crate::proto::GField;
use crate::peers::bytes_eq;
use crate::proto::clone_bytes;
use crate::proto::encode_fields;
use crate::proto::fields_view;
use crate::proto::get_last_bytes;
use crate::proto::last_bytes;
use crate::proto::parse_fields;
use crate::proto::push_field_bytes;
use crate::proto::push_field_num;
use crate::proto::read_fields;
use crate::rpc_utils::bytes_or_empty;
use crate::rpc_utils::lemma_encode_push;

verus! {

/// A link-layer module a route can run over.
pub enum ConnectionModule {
    Local,
    Lan,
    Internet,
    Ble,
    NoModule,
}

/// A running LAN module; the swarm it drives lives with the host.
pub struct Lan {
    pub active: bool,
}

/// A running internet overlay module; the swarm lives with the host.
pub struct Internet {
    pub active: bool,
}

/// The collection of running connection modules.
pub struct Connections {
    pub lan: Option<Lan>,
    pub internet: Option<Internet>,
}

/// The configured internet peers.
pub struct InternetConfig {
    pub peers: Vec<Vec<u8>>,
}

/// The outcome code of a nodes request.
pub open spec fn info_request() -> u64 {
    0
}

pub open spec fn info_add_success() -> u64 {
    1
}

pub open spec fn info_add_error_invalid() -> u64 {
    2
}

pub open spec fn info_remove_success() -> u64 {
    3
}

pub open spec fn info_remove_error_not_found() -> u64 {
    4
}

/// Whether a text parses as a network address. Relies on the address
/// parser of the libp2p stack; the result depends on the text alone.
pub uninterp spec fn multiaddr_ok(s: Seq<u8>) -> bool;

/// Relies on `libp2p`'s address parsing (`Multiaddr` from text): whether
/// the text is a well-formed multiaddress.
#[verifier::external_body]
fn parse_multiaddr(s: &Vec<u8>) -> (r: bool)
    ensures
        r == multiaddr_ok(s@),
{
    match std::str::from_utf8(s.as_slice()) {
        Ok(t) => t.parse::<libp2p::Multiaddr>().is_ok(),
        Err(_) => false,
    }
}

/// The request carried by a connections message: the last command field.
pub open spec fn connections_request_of(fs: Seq<GField>) -> Option<(u64, Seq<u8>)>
    decreases fs.len(),
{
    if fs.len() == 0 {
        None
    } else {
        match fs.last() {
            GField::Bytes(fl, d) => if 1 <= fl <= 3 {
                Some((fl, d))
            } else {
                connections_request_of(fs.drop_last())
            },
            GField::Num(fl, v) => connections_request_of(fs.drop_last()),
        }
    }
}

/// The encoded node list response: the outcome code and one entry per
/// configured address, wrapped as envelope field 4.
pub open spec fn node_list_fields(info: u64, peers: Seq<Seq<u8>>) -> Seq<GField>
    decreases peers.len(),
{
    if peers.len() == 0 {
        seq![GField::Num(1, info)]
    } else {
        node_list_fields(info, peers.drop_last()) + seq![
            GField::Bytes(2, encode_fields(seq![GField::Bytes(1, peers.last())])),
        ]
    }
}

pub open spec fn node_list_bytes(info: u64, peers: Seq<Seq<u8>>) -> Seq<u8> {
    encode_fields(seq![GField::Bytes(4, encode_fields(node_list_fields(info, peers)))])
}

/// What one request did to the configuration.
pub open spec fn peers_view(c: InternetConfig) -> Seq<Seq<u8>> {
    c.peers@.map_values(|p: Vec<u8>| p@)
}

/// The peer list with every occurrence of one address taken out.
pub open spec fn without_addr(peers: Seq<Seq<u8>>, addr: Seq<u8>) -> Seq<Seq<u8>> {
    peers.filter(|p: Seq<u8>| p != addr)
}

impl Connections {
    /// Build the collection from the modules the host initialized.
    pub fn init(lan: Option<Lan>, internet: Option<Internet>) -> (r: Connections)
        ensures
            r.lan == lan,
            r.internet == internet,
    {
        Connections { lan, internet }
    }

    /// Build the collection for a platform without a LAN module: only the
    /// internet overlay runs.
    pub fn init_android(internet: Option<Internet>) -> (r: Connections)
        ensures
            r.lan is None,
            r.internet == internet,
    {
        Connections { lan: None, internet }
    }

    /// Encode the node list response for the current configuration.
    pub fn rpc_send_node_list(info: u64, config: &InternetConfig) -> (r: Vec<u8>)
        requires
            info < 16,
        ensures
            r@ == node_list_bytes(info, peers_view(*config)),
    {
        let mut inner: Vec<u8> = Vec::new();
        push_field_num(&mut inner, 1, info);
        proof {
            let base = seq![GField::Num(1, info)];
            assert(base.drop_first() =~= Seq::<GField>::empty());
            assert(base[0] == GField::Num(1, info));
            assert(config.peers@.take(0).map_values(|p: Vec<u8>| p@) =~= Seq::<Seq<u8>>::empty());
            assert(node_list_fields(info, Seq::<Seq<u8>>::empty()) == base);
            assert(inner@ =~= encode_fields(
                node_list_fields(info, config.peers@.take(0).map_values(|p: Vec<u8>| p@)),
            )) by {
                reveal_with_fuel(encode_fields, 2);
            }
        }
        let mut i: usize = 0;
        while i < config.peers.len()
            invariant
                i <= config.peers@.len(),
                inner@ =~= encode_fields(
                    node_list_fields(
                        info,
                        config.peers@.take(i as int).map_values(|p: Vec<u8>| p@),
                    ),
                ),
                info < 16,
            decreases config.peers@.len() - i,
        {
            let mut entry: Vec<u8> = Vec::new();
            push_field_bytes(&mut entry, 1, &config.peers[i]);
            proof {
                let e = GField::Bytes(1, config.peers@[i as int]@);
                assert(seq![e].drop_first() =~= Seq::<GField>::empty());
                assert(seq![e][0] == e);
                assert(entry@ =~= encode_fields(seq![e])) by {
                    reveal_with_fuel(encode_fields, 2);
                }
            }
            push_field_bytes(&mut inner, 2, &entry);
            proof {
                let prev = config.peers@.take(i as int).map_values(|p: Vec<u8>| p@);
                let next = config.peers@.take(i + 1).map_values(|p: Vec<u8>| p@);
                assert(next =~= prev.push(config.peers@[i as int]@)) by {
                    assert(config.peers@.take(i + 1) =~= config.peers@.take(i as int).push(
                        config.peers@[i as int],
                    ));
                }
                assert(next.drop_last() =~= prev);
                assert(next.last() == config.peers@[i as int]@);
                assert(node_list_fields(info, next) == node_list_fields(info, prev) + seq![
                    GField::Bytes(2, encode_fields(seq![GField::Bytes(1, next.last())])),
                ]);
                lemma_encode_push(
                    node_list_fields(info, prev),
                    GField::Bytes(2, encode_fields(seq![GField::Bytes(1, next.last())])),
                );
                assert(node_list_fields(info, prev).push(
                    GField::Bytes(2, encode_fields(seq![GField::Bytes(1, next.last())])),
                ) =~= node_list_fields(info, next));
            }
            i = i + 1;
        }
        proof {
            assert(config.peers@.take(config.peers@.len() as int) =~= config.peers@);
        }
        Self::rpc_send_message(4, inner)
    }

    /// Wrap an encoded connections message for the supervisor channel.
    pub fn rpc_send_message(tag: u64, message: Vec<u8>) -> (r: Vec<u8>)
        requires
            tag < 16,
        ensures
            r@ =~= encode_fields(seq![GField::Bytes(tag, message@)]),
    {
        let mut out: Vec<u8> = Vec::new();
        push_field_bytes(&mut out, tag, &message);
        proof {
            let x = GField::Bytes(tag, message@);
            assert(seq![x].drop_first() =~= Seq::<GField>::empty());
            assert(seq![x][0] == x);
            reveal_with_fuel(encode_fields, 2);
        }
        out
    }

    /// Process one incoming request: list the configured peers, add an
    /// address after checking that it parses (an invalid address changes
    /// nothing and is reported), or remove a configured address (absence
    /// is reported). The updated configuration and the encoded response
    /// travel back to the host, which saves the configuration and sends
    /// the response; an accepted added address is also returned so the
    /// host can dial it.
    pub fn rpc(data: &Vec<u8>, config: &mut InternetConfig) -> (r: (Option<Vec<u8>>, Option<
        Vec<u8>,
    >))
        ensures
            match parse_fields(data@) {
                None => r.0 is None && r.1 is None && *final(config) == *old(config),
                Some(fs) => match connections_request_of(fs) {
                    None => r.0 is None && r.1 is None && *final(config) == *old(config),
                    Some(cmd) => {
                        let addr = match parse_fields(cmd.1) {
                            Some(infs) => bytes_or_empty(last_bytes(infs, 1)),
                            None => Seq::empty(),
                        };
                        if cmd.0 == 1 {
                            &&& *final(config) == *old(config)
                            &&& r.1 is None
                            &&& (r.0 matches Some(resp) && resp@ == node_list_bytes(
                                info_request(),
                                peers_view(*old(config)),
                            ))
                        } else if cmd.0 == 2 {
                            if multiaddr_ok(addr) {
                                &&& peers_view(*final(config)) =~= peers_view(
                                    *old(config),
                                ).push(addr)
                                &&& (r.1 matches Some(d) && d@ == addr)
                                &&& (r.0 matches Some(resp) && resp@ == node_list_bytes(
                                    info_add_success(),
                                    peers_view(*final(config)),
                                ))
                            } else {
                                &&& *final(config) == *old(config)
                                &&& r.1 is None
                                &&& (r.0 matches Some(resp) && resp@ == node_list_bytes(
                                    info_add_error_invalid(),
                                    peers_view(*old(config)),
                                ))
                            }
                        } else {
                            &&& r.1 is None
                            &&& peers_view(*final(config)) =~= without_addr(
                                peers_view(*old(config)),
                                addr,
                            )
                            &&& (r.0 matches Some(resp) && resp@ == node_list_bytes(
                                if peers_view(*old(config)).contains(addr) {
                                    info_remove_success()
                                } else {
                                    info_remove_error_not_found()
                                },
                                peers_view(*final(config)),
                            ))
                        }
                    },
                },
            },
    {
        let fs = match read_fields(data) {
            Some(fs) => fs,
            None => {
                return (None, None);
            },
        };
        let cmd = match Self::find_request(&fs) {
            Some(c) => c,
            None => {
                return (None, None);
            },
        };
        let (tag, body) = cmd;
        let addr: Vec<u8> = match read_fields(&body) {
            Some(infs) => match get_last_bytes(&infs, 1) {
                Some(a) => a,
                None => Vec::new(),
            },
            None => Vec::new(),
        };
        if tag == 1 {
            let resp = Self::rpc_send_node_list(0, config);
            (Some(resp), None)
        } else if tag == 2 {
            if parse_multiaddr(&addr) {
                let dial = clone_bytes(&addr);
                let ghost before = config.peers@;
                config.peers.push(addr);
                proof {
                    assert(config.peers@.map_values(|p: Vec<u8>| p@) =~= before.map_values(
                        |p: Vec<u8>| p@,
                    ).push(dial@));
                }
                let resp = Self::rpc_send_node_list(1, config);
                (Some(resp), Some(dial))
            } else {
                let resp = Self::rpc_send_node_list(2, config);
                (Some(resp), None)
            }
        } else {
            let mut kept: Vec<Vec<u8>> = Vec::new();
            let mut found = false;
            let ghost before = config.peers@;
            let mut i: usize = 0;
            while i < config.peers.len()
                invariant
                    i <= config.peers@.len(),
                    config.peers@ == before,
                    kept@.map_values(|p: Vec<u8>| p@) =~= before.take(i as int).map_values(
                        |p: Vec<u8>| p@,
                    ).filter(|p: Seq<u8>| p != addr@),
                    found == before.take(i as int).map_values(|p: Vec<u8>| p@).contains(addr@),
                decreases config.peers@.len() - i,
            {
                let ghost prev = before.take(i as int).map_values(|p: Vec<u8>| p@);
                let ghost x = before[i as int]@;
                let ghost next = before.take(i + 1).map_values(|p: Vec<u8>| p@);
                proof {
                    reveal(Seq::filter);
                    assert(before.take(i + 1) =~= before.take(i as int).push(
                        before[i as int],
                    ));
                    assert(next =~= prev.push(x));
                    assert(prev.push(x).drop_last() =~= prev);
                    assert(prev.push(x).last() == x);
                }
                let keep = !bytes_eq(&config.peers[i], &addr);
                if keep {
                    let copied = clone_bytes(&config.peers[i]);
                    proof {
                        assert(x != addr@);
                        assert(next.filter(|p: Seq<u8>| p != addr@) == prev.push(x).filter(
                            |p: Seq<u8>| p != addr@,
                        ));
                        assert(prev.push(x).filter(|p: Seq<u8>| p != addr@) == prev.filter(
                            |p: Seq<u8>| p != addr@,
                        ).push(x));
                        assert(kept@.push(copied).map_values(|p: Vec<u8>| p@) =~= kept@.map_values(
                            |p: Vec<u8>| p@,
                        ).push(x));
                        assert(next.contains(addr@) == prev.contains(addr@)) by {
                            if next.contains(addr@) {
                                let w = choose|w: int|
                                    0 <= w < next.len() && next[w] == addr@;
                                if w == prev.len() {
                                    assert(next[w] == x);
                                    assert(false);
                                } else {
                                    assert(prev[w] == next[w]);
                                }
                            }
                            if prev.contains(addr@) {
                                let w = choose|w: int|
                                    0 <= w < prev.len() && prev[w] == addr@;
                                assert(next[w] == prev[w]);
                            }
                        }
                    }
                    kept.push(copied);
                } else {
                    found = true;
                    proof {
                        assert(x == addr@);
                        assert(prev.push(x).filter(|p: Seq<u8>| p != addr@) == prev.filter(
                            |p: Seq<u8>| p != addr@,
                        ));
                        assert(next[prev.len() as int] == addr@);
                        assert(next.contains(addr@));
                    }
                }
                i = i + 1;
            }
            proof {
                assert(before.take(before.len() as int) =~= before);
                assert(kept@.map_values(|p: Vec<u8>| p@) =~= without_addr(
                    before.map_values(|p: Vec<u8>| p@),
                    addr@,
                ));
            }
            config.peers = kept;
            proof {
                assert(peers_view(*config) =~= without_addr(
                    before.map_values(|p: Vec<u8>| p@),
                    addr@,
                ));
            }
            let resp = Self::rpc_send_node_list(if found { 3 } else { 4 }, config);
            (Some(resp), None)
        }
    }

    /// Find the request field, scanning from the end.
    fn find_request(fs: &Vec<FieldVal>) -> (r: Option<(u64, Vec<u8>)>)
        ensures
            match r {
                Some(p) => connections_request_of(fields_view(fs@)) == Some((p.0, p.1@)),
                None => connections_request_of(fields_view(fs@)) is None,
            },
    {
        let ghost gfs = fields_view(fs@);
        let mut i: usize = fs.len();
        proof {
            assert(gfs.take(i as int) =~= gfs);
        }
        while i > 0
            invariant
                i <= fs.len(),
                gfs == fields_view(fs@),
                gfs.len() == fs@.len(),
                connections_request_of(gfs) == connections_request_of(gfs.take(i as int)),
            decreases i,
        {
            proof {
                assert(gfs.take(i as int).last() == gfs[i - 1]);
                assert(gfs[i - 1] == crate::proto::field_view(&fs@[i - 1]));
                assert(gfs.take(i as int).drop_last() =~= gfs.take(i - 1));
            }
            match &fs[i - 1] {
                FieldVal::Bytes(fl, d) => {
                    if 1 <= *fl && *fl <= 3 {
                        return Some((*fl, clone_bytes(d)));
                    }
                },
                FieldVal::Num(fl, v) => {},
            }
            i = i - 1;
        }
        proof {
            assert(gfs.take(0) =~= Seq::<GField>::empty());
        }
        None
    }
}

} // verus!
