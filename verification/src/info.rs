//! Device information for the info request.
//!
//! The host queries the adapter for its address, name, power state and
//! advertising capabilities; this module turns those plain readings into
//! the response record. Extended advertising is reported exactly when the
//! platform accepts advertisements longer than the legacy 31 bytes.

use vstd::prelude::*;

verus! {

/// The capabilities record returned for an info request.
pub struct BleDeviceInfo {
    pub ble_support: bool,
    pub id: Vec<u8>,
    pub name: Vec<u8>,
    pub bluetooth_on: bool,
    pub adv_extended: bool,
    pub adv_extended_bytes: u32,
    pub le_2m: bool,
    pub le_coded: bool,
    pub le_audio: bool,
    pub le_periodic_adv_support: bool,
    pub le_multiple_adv_support: bool,
    pub offload_filter_support: bool,
    pub offload_scan_batching_support: bool,
}

/// Build the device record from the adapter's readings: `id` and `name`
/// are the adapter's address text and name, `powered` its power state,
/// `max_adv_length` the advertisement capability if the platform reports
/// one (30 is assumed otherwise), and `hw_offload` whether the platform
/// offers hardware offload for multiple advertisements.
pub fn get_device_info(
    id: Vec<u8>,
    name: Vec<u8>,
    powered: bool,
    max_adv_length: Option<u32>,
    hw_offload: bool,
) -> (r: BleDeviceInfo)
    ensures
        r.ble_support == true,
        r.id@ == id@,
        r.name@ == name@,
        r.bluetooth_on == powered,
        r.adv_extended == (match max_adv_length {
            Some(l) => l > 31,
            None => false,
        }),
        r.adv_extended_bytes == (match max_adv_length {
            Some(l) => l,
            None => 30u32,
        }),
        r.le_2m == false,
        r.le_coded == false,
        r.le_audio == false,
        r.le_periodic_adv_support == false,
        r.le_multiple_adv_support == hw_offload,
        r.offload_filter_support == false,
        r.offload_scan_batching_support == false,
{
    let len: u32 = match max_adv_length {
        Some(l) => l,
        None => 30,
    };
    BleDeviceInfo {
        ble_support: true,
        id,
        name,
        bluetooth_on: powered,
        adv_extended: len > 31,
        adv_extended_bytes: len,
        le_2m: false,
        le_coded: false,
        le_audio: false,
        le_periodic_adv_support: false,
        le_multiple_adv_support: hw_offload,
        offload_filter_support: false,
        offload_scan_batching_support: false,
    }
}

/// The uppercase hex character for a nibble value.
pub open spec fn hex_digit_upper(n: int) -> u8 {
    if n < 10 {
        (0x30 + n) as u8
    } else {
        (0x37 + n) as u8
    }
}

/// The text of a hardware address: six octets as uppercase hex pairs
/// joined by colons.
pub open spec fn mac_text(mac: Seq<u8>) -> Seq<u8>
    decreases mac.len(),
{
    if mac.len() == 0 {
        Seq::empty()
    } else {
        let pair = seq![
            hex_digit_upper(mac[0] as int / 16),
            hex_digit_upper(mac[0] as int % 16),
        ];
        if mac.len() == 1 {
            pair
        } else {
            pair + seq![0x3au8] + mac_text(mac.drop_first())
        }
    }
}

proof fn lemma_mac_text_push(mac: Seq<u8>, b: u8)
    requires
        mac.len() >= 1,
    ensures
        mac_text(mac.push(b)) =~= mac_text(mac) + seq![0x3au8] + seq![
            hex_digit_upper(b as int / 16),
            hex_digit_upper(b as int % 16),
        ],
    decreases mac.len(),
{
    if mac.len() == 1 {
        assert(mac.push(b)[0] == mac[0]);
        assert(mac.push(b).drop_first() =~= seq![b]);
        assert(mac_text(seq![b]) =~= seq![
            hex_digit_upper(seq![b][0] as int / 16),
            hex_digit_upper(seq![b][0] as int % 16),
        ]);
        assert(seq![b][0] == b);
    } else {
        assert(mac.push(b)[0] == mac[0]);
        assert(mac.push(b).drop_first() =~= mac.drop_first().push(b));
        lemma_mac_text_push(mac.drop_first(), b);
    }
}

/// Render a hardware address as text.
pub fn mac_to_string(mac: &Vec<u8>) -> (r: Vec<u8>)
    ensures
        r@ == mac_text(mac@),
{
    let mut out: Vec<u8> = Vec::new();
    let mut i: usize = 0;
    while i < mac.len()
        invariant
            i <= mac.len(),
            out@ =~= mac_text(mac@.take(i as int)),
        decreases mac.len() - i,
    {
        if i > 0 {
            out.push(0x3a);
        }
        let b = mac[i];
        let hi = b / 16;
        let lo = b % 16;
        out.push(if hi < 10 { 0x30 + hi } else { 0x37 + hi });
        out.push(if lo < 10 { 0x30 + lo } else { 0x37 + lo });
        proof {
            assert(mac@.take(i + 1) =~= mac@.take(i as int).push(mac@[i as int]));
            if i == 0 {
                assert(mac@.take(1) =~= seq![mac@[0]]);
                assert(mac_text(seq![mac@[0]]) =~= seq![
                    hex_digit_upper(mac@[0] as int / 16),
                    hex_digit_upper(mac@[0] as int % 16),
                ]);
            } else {
                lemma_mac_text_push(mac@.take(i as int), mac@[i as int]);
            }
        }
        i = i + 1;
    }
    proof {
        assert(mac@.take(mac@.len() as int) =~= mac@);
    }
    out
}

/// The 48-bit value of a six-octet hardware address, most significant
/// octet first.
pub open spec fn mac_value(mac: Seq<u8>) -> int
    decreases mac.len(),
{
    if mac.len() == 0 {
        0
    } else {
        mac_value(mac.drop_last()) * 256 + mac.last()
    }
}

/// Fold a six-octet address into its 48-bit value.
pub fn mac_to_u64(mac: &Vec<u8>) -> (r: u64)
    requires
        mac@.len() == 6,
    ensures
        r == mac_value(mac@),
        r < 0x1000000000000,
{
    let b0 = mac[0] as u64;
    let b1 = mac[1] as u64;
    let b2 = mac[2] as u64;
    let b3 = mac[3] as u64;
    let b4 = mac[4] as u64;
    let b5 = mac[5] as u64;
    let acc = ((((b0 * 256 + b1) * 256 + b2) * 256 + b3) * 256 + b4) * 256 + b5;
    proof {
        lemma_mac_unfold(mac@);
    }
    acc
}

/// The value of a six-octet address written out in full.
proof fn lemma_mac_unfold(s: Seq<u8>)
    requires
        s.len() == 6,
    ensures
        mac_value(s) == ((((s[0] * 256 + s[1]) * 256 + s[2]) * 256 + s[3]) * 256 + s[4]) * 256
            + s[5],
        0 <= mac_value(s) < 0x1000000000000,
{
    reveal_with_fuel(mac_value, 8);
    assert(s.drop_last() =~= s.take(5));
    assert(s.take(5).drop_last() =~= s.take(4));
    assert(s.take(4).drop_last() =~= s.take(3));
    assert(s.take(3).drop_last() =~= s.take(2));
    assert(s.take(2).drop_last() =~= s.take(1));
    assert(s.take(1).drop_last() =~= s.take(0));
    assert(s.take(0) =~= Seq::<u8>::empty());
    assert(s.take(1).last() == s[0]);
    assert(s.take(2).last() == s[1]);
    assert(s.take(3).last() == s[2]);
    assert(s.take(4).last() == s[3]);
    assert(s.take(5).last() == s[4]);
    assert(s.last() == s[5]);
}

/// The six octets of a 48-bit address value, most significant first.
pub open spec fn mac_octets(v: u64) -> Seq<u8> {
    seq![
        ((v / 0x10000000000) % 256) as u8,
        ((v / 0x100000000) % 256) as u8,
        ((v / 0x1000000) % 256) as u8,
        ((v / 0x10000) % 256) as u8,
        ((v / 0x100) % 256) as u8,
        (v % 256) as u8,
    ]
}

/// Unfold a 48-bit value into its six octets.
pub fn u64_to_mac(v: u64) -> (r: Vec<u8>)
    requires
        v < 0x1000000000000,
    ensures
        r@ =~= mac_octets(v),
        r@.len() == 6,
        mac_value(r@) == v,
{
    let mut out: Vec<u8> = Vec::new();
    out.push(((v / 0x10000000000) % 256) as u8);
    out.push(((v / 0x100000000) % 256) as u8);
    out.push(((v / 0x1000000) % 256) as u8);
    out.push(((v / 0x10000) % 256) as u8);
    out.push(((v / 0x100) % 256) as u8);
    out.push((v % 256) as u8);
    proof {
        let s = out@;
        assert(s.len() == 6);
        lemma_mac_unfold(s);
        assert(s[0] == (v / 0x10000000000) % 256);
        assert(s[1] == (v / 0x100000000) % 256);
        assert(s[2] == (v / 0x1000000) % 256);
        assert(s[3] == (v / 0x10000) % 256);
        assert(s[4] == (v / 0x100) % 256);
        assert(s[5] == v % 256);
        lemma_decompose_48(v as int);
    }
    out
}

/// A value below two to the 48 is rebuilt from its base-256 digits.
proof fn lemma_decompose_48(v: int)
    requires
        0 <= v < 0x1000000000000,
    ensures
        ((((((v / 0x10000000000) % 256) * 256 + (v / 0x100000000) % 256) * 256 + (v / 0x1000000)
            % 256) * 256 + (v / 0x10000) % 256) * 256 + (v / 0x100) % 256) * 256 + v % 256 == v,
{
    vstd::arithmetic::div_mod::lemma_div_denominator(v, 0x100, 0x100);
    vstd::arithmetic::div_mod::lemma_div_denominator(v, 0x10000, 0x100);
    vstd::arithmetic::div_mod::lemma_div_denominator(v, 0x1000000, 0x100);
    vstd::arithmetic::div_mod::lemma_div_denominator(v, 0x100000000, 0x100);
    let q1 = v / 0x100;
    let q2 = v / 0x10000;
    let q3 = v / 0x1000000;
    let q4 = v / 0x100000000;
    let q5 = v / 0x10000000000;
    assert(q2 == q1 / 0x100);
    assert(q3 == q2 / 0x100);
    assert(q4 == q3 / 0x100);
    assert(q5 == q4 / 0x100);
    assert(q5 < 256);
    assert(q4 == (q4 / 0x100) * 256 + q4 % 256);
    assert(q3 == (q3 / 0x100) * 256 + q3 % 256);
    assert(q2 == (q2 / 0x100) * 256 + q2 % 256);
    assert(q1 == (q1 / 0x100) * 256 + q1 % 256);
    assert(v == q1 * 256 + v % 256);
    assert(q5 % 256 == q5);
}

} // verus!
