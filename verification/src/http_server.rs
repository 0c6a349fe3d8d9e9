//! The web front door's route table.
//!
//! The server serves the web interface's static files and its virtual
//! routes, all rooted at the configured directory (the assets below its
//! `assets` subdirectory), beside the REST and RPC endpoints the host
//! nests. The table computed here pairs each route with the directory it
//! serves from; the host installs it on the listener.

use vstd::prelude::*;

use crate::rpc_utils::dec_text_bytes;
use crate::rpc_utils::str_to_bytes;

verus! {

/// One static route: the path pattern and the directory it serves.
pub struct StaticRoute {
    pub route: Vec<u8>,
    pub root: Vec<u8>,
}

/// The route table for a root directory: the index and icon, the assets
/// subdirectory, and each virtual page with and without a trailing
/// wildcard.
pub open spec fn route_list(path: Seq<u8>) -> Seq<(Seq<u8>, Seq<u8>)> {
    seq![
        (dec_text_bytes("/"), path),
        (dec_text_bytes("/favicon.ico"), path),
        (dec_text_bytes("/assets/"), path + dec_text_bytes("/assets")),
        (dec_text_bytes("/feed"), path),
        (dec_text_bytes("/feed/*"), path),
        (dec_text_bytes("/messenger"), path),
        (dec_text_bytes("/messenger/*"), path),
        (dec_text_bytes("/users"), path),
        (dec_text_bytes("/users/*"), path),
        (dec_text_bytes("/files"), path),
        (dec_text_bytes("/files/*"), path),
        (dec_text_bytes("/settings"), path),
        (dec_text_bytes("/settings/*"), path),
        (dec_text_bytes("/info"), path),
        (dec_text_bytes("/info/*"), path),
    ]
}

/// The web front door.
pub struct HttpServer;

impl HttpServer {
    /// The static routes for a root directory.
    pub fn set_paths(path: &Vec<u8>) -> (r: Vec<StaticRoute>)
        ensures
            r@.len() == route_list(path@).len(),
            forall|i: int|
                0 <= i < r@.len() ==> (#[trigger] r@[i]).route@ == route_list(path@)[i].0
                    && r@[i].root@ == route_list(path@)[i].1,
    {
        let mut assets_path = crate::proto::clone_bytes(path);
        let suffix = str_to_bytes("/assets");
        crate::frame::append_bytes(&mut assets_path, &suffix);
        let mut out: Vec<StaticRoute> = Vec::new();
        out.push(
            StaticRoute { route: str_to_bytes("/"), root: crate::proto::clone_bytes(path) },
        );
        out.push(
            StaticRoute {
                route: str_to_bytes("/favicon.ico"),
                root: crate::proto::clone_bytes(path),
            },
        );
        out.push(StaticRoute { route: str_to_bytes("/assets/"), root: assets_path });
        out.push(
            StaticRoute { route: str_to_bytes("/feed"), root: crate::proto::clone_bytes(path) },
        );
        out.push(
            StaticRoute {
                route: str_to_bytes("/feed/*"),
                root: crate::proto::clone_bytes(path),
            },
        );
        out.push(
            StaticRoute {
                route: str_to_bytes("/messenger"),
                root: crate::proto::clone_bytes(path),
            },
        );
        out.push(
            StaticRoute {
                route: str_to_bytes("/messenger/*"),
                root: crate::proto::clone_bytes(path),
            },
        );
        out.push(
            StaticRoute {
                route: str_to_bytes("/users"),
                root: crate::proto::clone_bytes(path),
            },
        );
        out.push(
            StaticRoute {
                route: str_to_bytes("/users/*"),
                root: crate::proto::clone_bytes(path),
            },
        );
        out.push(
            StaticRoute {
                route: str_to_bytes("/files"),
                root: crate::proto::clone_bytes(path),
            },
        );
        out.push(
            StaticRoute {
                route: str_to_bytes("/files/*"),
                root: crate::proto::clone_bytes(path),
            },
        );
        out.push(
            StaticRoute {
                route: str_to_bytes("/settings"),
                root: crate::proto::clone_bytes(path),
            },
        );
        out.push(
            StaticRoute {
                route: str_to_bytes("/settings/*"),
                root: crate::proto::clone_bytes(path),
            },
        );
        out.push(
            StaticRoute {
                route: str_to_bytes("/info"),
                root: crate::proto::clone_bytes(path),
            },
        );
        out.push(
            StaticRoute {
                route: str_to_bytes("/info/*"),
                root: crate::proto::clone_bytes(path),
            },
        );
        out
    }
}

} // verus!
