//! BLE mesh transport core of a peer-to-peer messaging system, together with
//! the surrounding service modules (user store, router, connections, user
//! accounts, crypto session handling and the web front door).
//!
//! The crate verifies the logic of the transport: hex framing, fragment
//! reassembly, the discovered-peer registry, the per-peer send queue and the
//! main event loop's dispatch rules. Platform I/O (the BLE adapter, channels,
//! the HTTP listener) is performed by a host program around this library.

use vstd::prelude::*;

pub mod ble_service;
pub mod ble_uuids;
pub mod connections;
pub mod crypto_session;
pub mod frame;
pub mod peers;
pub mod proto;
pub mod qaul;
pub mod rpc_utils;
pub mod router;
pub mod sendq;
pub mod store;
pub mod user_accounts;
pub mod users;
pub mod hex;
pub mod http_server;
pub mod info;
pub mod wire;

verus! {

} // verus!
