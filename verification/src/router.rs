//! The community router's configuration and its request channel.
//!
//! The router owns the routing options it was initialized with and answers
//! the supervisor's requests for its tables. Which table a request names
//! travels as one empty length-delimited field: routing table 1,
//! connections 2, neighbours 3.

use vstd::prelude::*;

use crate::proto::FieldVal;
use crate::proto::GField;
use crate::proto::fields_view;
use crate::proto::parse_fields;
use crate::proto::read_fields;

verus! {

/// The routing configuration the router is initialized with.
pub struct RoutingOptions {
    pub sending_table_period: u64,
    pub ping_neighbour_period: u64,
    pub hop_count_penalty: u32,
    pub maintain_period_limit: u64,
}

/// Which table list a router request asks for.
pub enum RouterRpcRequest {
    RoutingTable,
    Connections,
    Neighbours,
    Unrecognized,
}

/// The community router.
pub struct Router {
    pub configuration: RoutingOptions,
}

/// The table named by the last request field, if any.
pub open spec fn router_request_of(fs: Seq<GField>) -> Option<u64>
    decreases fs.len(),
{
    if fs.len() == 0 {
        None
    } else {
        match fs.last() {
            GField::Bytes(fl, d) => if 1 <= fl <= 3 {
                Some(fl)
            } else {
                router_request_of(fs.drop_last())
            },
            GField::Num(fl, v) => router_request_of(fs.drop_last()),
        }
    }
}

impl Router {
    /// Initialize the router with the configured routing options.
    pub fn init(configuration: RoutingOptions) -> (r: Router)
        ensures
            r.configuration == configuration,
    {
        Router { configuration }
    }

    /// The router's configuration.
    pub fn get_configuration(&self) -> (r: RoutingOptions)
        ensures
            r == self.configuration,
    {
        RoutingOptions {
            sending_table_period: self.configuration.sending_table_period,
            ping_neighbour_period: self.configuration.ping_neighbour_period,
            hop_count_penalty: self.configuration.hop_count_penalty,
            maintain_period_limit: self.configuration.maintain_period_limit,
        }
    }

    /// Decode one router request and name the table to answer with; a
    /// buffer that is not well-formed protobuf, or that names no table,
    /// is unrecognized.
    pub fn rpc(data: &Vec<u8>) -> (r: RouterRpcRequest)
        ensures
            match parse_fields(data@) {
                None => r is Unrecognized,
                Some(fs) => match router_request_of(fs) {
                    None => r is Unrecognized,
                    Some(tag) => (tag == 1 ==> r is RoutingTable) && (tag == 2
                        ==> r is Connections) && (tag == 3 ==> r is Neighbours),
                },
            },
    {
        let fs = match read_fields(data) {
            Some(fs) => fs,
            None => {
                return RouterRpcRequest::Unrecognized;
            },
        };
        let ghost gfs = fields_view(fs@);
        let mut i: usize = fs.len();
        proof {
            assert(gfs.take(i as int) =~= gfs);
        }
        while i > 0
            invariant
                i <= fs.len(),
                gfs == fields_view(fs@),
                gfs.len() == fs@.len(),
                parse_fields(data@) == Some(gfs),
                router_request_of(gfs) == router_request_of(gfs.take(i as int)),
            decreases i,
        {
            proof {
                assert(gfs.take(i as int).last() == gfs[i - 1]);
                assert(gfs[i - 1] == crate::proto::field_view(&fs@[i - 1]));
                assert(gfs.take(i as int).drop_last() =~= gfs.take(i - 1));
            }
            match &fs[i - 1] {
                FieldVal::Bytes(fl, d) => {
                    proof {
                        assert(gfs[i - 1] matches GField::Bytes(gfl, gd) && gfl == *fl);
                    }
                    if *fl == 1 {
                        proof {
                            assert(router_request_of(gfs.take(i as int)) == Some(1u64));
                        }
                        return RouterRpcRequest::RoutingTable;
                    } else if *fl == 2 {
                        proof {
                            assert(router_request_of(gfs.take(i as int)) == Some(2u64));
                        }
                        return RouterRpcRequest::Connections;
                    } else if *fl == 3 {
                        proof {
                            assert(router_request_of(gfs.take(i as int)) == Some(3u64));
                        }
                        return RouterRpcRequest::Neighbours;
                    }
                },
                FieldVal::Num(fl, v) => {},
            }
            i = i - 1;
        }
        proof {
            assert(gfs.take(0) =~= Seq::<GField>::empty());
        }
        RouterRpcRequest::Unrecognized
    }
}

} // verus!
