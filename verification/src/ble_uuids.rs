//! The service and characteristic identifiers of the transport.
//!
//! Identifiers are carried as their 128-bit values. The main service hosts
//! the read characteristic (serving this node's identifier) and the write
//! characteristic (accepting inbound fragments); the message service
//! identifier is reserved for extended advertisements and only names the
//! discovery filter.

use vstd::prelude::*;

verus! {

/// The primary service.
pub fn main_service_uuid() -> (r: u128)
    ensures
        r == 0x99e91399_80ed_4943_9bcb_39c532a76023u128,
{
    0x99e91399_80ed_4943_9bcb_39c532a76023
}

/// The reserved message service, named by the discovery filter only.
pub fn msg_service_uuid() -> (r: u128)
    ensures
        r == 0x99e91400_80ed_4943_9bcb_39c532a76023u128,
{
    0x99e91400_80ed_4943_9bcb_39c532a76023
}

/// The read characteristic: serves this node's identifier.
pub fn read_char() -> (r: u128)
    ensures
        r == 0x99e91401_80ed_4943_9bcb_39c532a76023u128,
{
    0x99e91401_80ed_4943_9bcb_39c532a76023
}

/// The write characteristic: accepts inbound fragments.
pub fn msg_char() -> (r: u128)
    ensures
        r == 0x99e91402_80ed_4943_9bcb_39c532a76023u128,
{
    0x99e91402_80ed_4943_9bcb_39c532a76023
}

/// A further reserved characteristic.
pub fn gd_char() -> (r: u128)
    ensures
        r == 0x99e91403_80ed_4943_9bcb_39c532a76023u128,
{
    0x99e91403_80ed_4943_9bcb_39c532a76023
}

/// The discovery filter: scanning is scoped to the transport's service
/// identifiers.
pub fn get_filter() -> (r: Vec<u128>)
    ensures
        r@ =~= seq![
            0x99e91399_80ed_4943_9bcb_39c532a76023u128,
            0x99e91400_80ed_4943_9bcb_39c532a76023u128,
        ],
{
    let mut v: Vec<u128> = Vec::new();
    v.push(0x99e91399_80ed_4943_9bcb_39c532a76023);
    v.push(0x99e91400_80ed_4943_9bcb_39c532a76023);
    v
}

} // verus!
