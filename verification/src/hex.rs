//! Lowercase hexadecimal encoding of byte strings.
//!
//! Message payloads are hex-expanded before they are cut into BLE-sized
//! fragments, and incoming fragments are hex text that is folded back into
//! bytes once a frame is complete.

use vstd::prelude::*;

verus! {

/// The lowercase hex character for a nibble value.
pub open spec fn hex_digit(n: int) -> u8 {
    if n < 10 {
        (0x30 + n) as u8
    } else {
        (0x57 + n) as u8
    }
}

/// The hex expansion of a byte string: two lowercase digits per byte.
pub open spec fn hex_of(s: Seq<u8>) -> Seq<u8>
    decreases s.len(),
{
    if s.len() == 0 {
        Seq::empty()
    } else {
        seq![hex_digit(s[0] as int / 16), hex_digit(s[0] as int % 16)] + hex_of(s.drop_first())
    }
}

/// Whether a character is a lowercase hex digit.
pub open spec fn is_hex_char(c: u8) -> bool {
    (0x30 <= c <= 0x39) || (0x61 <= c <= 0x66)
}

/// The nibble value of a lowercase hex digit.
pub open spec fn hex_val(c: u8) -> int {
    if 0x30 <= c <= 0x39 {
        c - 0x30
    } else {
        c - 0x57
    }
}

/// The byte string a hex text stands for, if the text is well formed
/// (even length, lowercase hex digits throughout).
pub open spec fn hex_decoded(h: Seq<u8>) -> Option<Seq<u8>>
    decreases h.len(),
{
    if h.len() == 0 {
        Some(Seq::empty())
    } else if h.len() == 1 {
        None
    } else if is_hex_char(h[0]) && is_hex_char(h[1]) {
        match hex_decoded(h.skip(2)) {
            Some(rest) => Some(seq![(hex_val(h[0]) * 16 + hex_val(h[1])) as u8] + rest),
            None => None,
        }
    } else {
        None
    }
}

pub proof fn lemma_hex_of_len(s: Seq<u8>)
    ensures
        hex_of(s).len() == 2 * s.len(),
    decreases s.len(),
{
    if s.len() > 0 {
        lemma_hex_of_len(s.drop_first());
    }
}

/// Each position of a hex expansion holds a digit of the byte it came from:
/// even positions the high nibble, odd positions the low nibble.
pub proof fn lemma_hex_of_index(s: Seq<u8>, i: int)
    requires
        0 <= i < 2 * s.len(),
    ensures
        hex_of(s).len() == 2 * s.len(),
        hex_of(s)[i] == if i % 2 == 0 {
            hex_digit(s[i / 2] as int / 16)
        } else {
            hex_digit(s[i / 2] as int % 16)
        },
    decreases s.len(),
{
    lemma_hex_of_len(s);
    if s.len() > 0 && i >= 2 {
        lemma_hex_of_index(s.drop_first(), i - 2);
    }
}

/// Appending a byte appends its two digits.
pub proof fn lemma_hex_of_push(s: Seq<u8>, b: u8)
    ensures
        hex_of(s.push(b)) =~= hex_of(s) + seq![hex_digit(b as int / 16), hex_digit(b as int % 16)],
    decreases s.len(),
{
    let digits = seq![hex_digit(b as int / 16), hex_digit(b as int % 16)];
    if s.len() == 0 {
        assert(s.push(b)[0] == b);
        assert(s.push(b).drop_first() =~= Seq::<u8>::empty());
        assert(hex_of(s.push(b)) == digits + hex_of(Seq::<u8>::empty()));
        assert(hex_of(s) =~= Seq::<u8>::empty());
        assert(digits + hex_of(Seq::<u8>::empty()) =~= hex_of(s) + digits);
    } else {
        assert(s.push(b).drop_first() =~= s.drop_first().push(b));
        lemma_hex_of_push(s.drop_first(), b);
        assert(s.push(b)[0] == s[0]);
        let head = seq![hex_digit(s[0] as int / 16), hex_digit(s[0] as int % 16)];
        assert(hex_of(s.push(b)) == head + hex_of(s.drop_first().push(b)));
        assert(head + (hex_of(s.drop_first()) + digits) =~= (head + hex_of(s.drop_first())) + digits);
        assert(hex_of(s) == head + hex_of(s.drop_first()));
    }
}

/// Hex expansion distributes over concatenation.
pub proof fn lemma_hex_of_add(a: Seq<u8>, b: Seq<u8>)
    ensures
        hex_of(a + b) =~= hex_of(a) + hex_of(b),
    decreases a.len(),
{
    if a.len() == 0 {
        assert(a + b =~= b);
    } else {
        assert((a + b).drop_first() =~= a.drop_first() + b);
        lemma_hex_of_add(a.drop_first(), b);
        assert((a + b)[0] == a[0]);
    }
}

/// Folding the hex expansion back recovers the byte string.
pub proof fn lemma_hex_round_trip(s: Seq<u8>)
    ensures
        hex_decoded(hex_of(s)) == Some(s),
    decreases s.len(),
{
    if s.len() == 0 {
        assert(hex_of(s) =~= Seq::<u8>::empty());
        assert(hex_decoded(hex_of(s)) == Some(Seq::<u8>::empty()));
        assert(Seq::<u8>::empty() =~= s);
    } else {
        let h = hex_of(s);
        let b = s[0];
        lemma_hex_of_len(s);
        assert(h[0] == hex_digit(b as int / 16) && h[1] == hex_digit(b as int % 16)) by {
            lemma_hex_of_index(s, 0);
            lemma_hex_of_index(s, 1);
        }
        assert(is_hex_char(h[0]) && is_hex_char(h[1]));
        assert(hex_val(h[0]) == b as int / 16 && hex_val(h[1]) == b as int % 16);
        assert(h.skip(2) =~= hex_of(s.drop_first()));
        lemma_hex_round_trip(s.drop_first());
        assert(hex_val(h[0]) * 16 + hex_val(h[1]) == b);
        assert(hex_decoded(h).unwrap() =~= s);
    }
}

/// Expand a byte string into lowercase hex text.
pub fn bytes_to_hex(data: &Vec<u8>) -> (r: Vec<u8>)
    ensures
        r@ == hex_of(data@),
{
    let mut out: Vec<u8> = Vec::new();
    let mut i: usize = 0;
    while i < data.len()
        invariant
            i <= data.len(),
            out@ =~= hex_of(data@.take(i as int)),
        decreases data.len() - i,
    {
        let b = data[i];
        let hi = b / 16;
        let lo = b % 16;
        let hi_c: u8 = if hi < 10 { 0x30 + hi } else { 0x57 + hi };
        let lo_c: u8 = if lo < 10 { 0x30 + lo } else { 0x57 + lo };
        proof {
            assert(data@.take(i + 1) =~= data@.take(i as int).push(data@[i as int]));
            lemma_hex_of_push(data@.take(i as int), data@[i as int]);
        }
        out.push(hi_c);
        out.push(lo_c);
        i = i + 1;
    }
    proof {
        assert(data@.take(data@.len() as int) =~= data@);
    }
    out
}

/// Fold hex text back into bytes; `None` when the text is not well-formed
/// lowercase hex of even length.
pub fn hex_to_bytes(h: &Vec<u8>) -> (r: Option<Vec<u8>>)
    ensures
        match r {
            Some(b) => hex_decoded(h@) == Some(b@),
            None => hex_decoded(h@) is None,
        },
{
    if h.len() % 2 != 0 {
        proof {
            lemma_hex_decoded_odd(h@);
        }
        return None;
    }
    let mut out: Vec<u8> = Vec::new();
    let mut i: usize = 0;
    proof {
        assert(h@.skip(0) =~= h@);
        if hex_decoded(h@) is Some {
            assert(Seq::<u8>::empty() + hex_decoded(h@).unwrap() =~= hex_decoded(h@).unwrap());
        }
    }
    while i < h.len()
        invariant
            i <= h.len(),
            i % 2 == 0,
            h.len() % 2 == 0,
            hex_decoded(h@) == match hex_decoded(h@.skip(i as int)) {
                Some(rest) => Some(out@ + rest),
                None => None::<Seq<u8>>,
            },
        decreases h.len() - i,
    {
        let c0 = h[i];
        let c1 = h[i + 1];
        let v0 = match hex_char_val(c0) {
            Some(v) => v,
            None => {
                return None;
            },
        };
        let v1 = match hex_char_val(c1) {
            Some(v) => v,
            None => {
                return None;
            },
        };
        proof {
            let tail = h@.skip(i as int);
            assert(tail[0] == h@[i as int]);
            assert(tail[1] == h@[i as int + 1]);
            assert(tail.skip(2) =~= h@.skip(i as int + 2));
        }
        let b: u8 = v0 * 16 + v1;
        out.push(b);
        proof {
            let rest = hex_decoded(h@.skip(i as int + 2));
            if rest is Some {
                assert(out@ + rest.unwrap() =~= out@.drop_last() + (seq![b] + rest.unwrap()));
            }
        }
        i = i + 2;
    }
    proof {
        assert(h@.skip(h@.len() as int) =~= Seq::<u8>::empty());
        assert(hex_decoded(h@) == Some(out@ + Seq::<u8>::empty()));
        assert(out@ + Seq::<u8>::empty() =~= out@);
    }
    Some(out)
}

/// The nibble value of one character, when it is a lowercase hex digit.
fn hex_char_val(c: u8) -> (r: Option<u8>)
    ensures
        match r {
            Some(v) => is_hex_char(c) && v == hex_val(c) && v < 16,
            None => !is_hex_char(c),
        },
{
    if 0x30 <= c && c <= 0x39 {
        Some(c - 0x30)
    } else if 0x61 <= c && c <= 0x66 {
        Some(c - 0x57)
    } else {
        None
    }
}

/// A hex text of odd length decodes to nothing.
proof fn lemma_hex_decoded_odd(h: Seq<u8>)
    requires
        h.len() % 2 == 1,
    ensures
        hex_decoded(h) is None,
    decreases h.len(),
{
    if h.len() > 1 && is_hex_char(h[0]) && is_hex_char(h[1]) {
        lemma_hex_decoded_odd(h.skip(2));
    }
}

} // verus!
