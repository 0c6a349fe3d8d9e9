//! The JSON envelope carried inside a framed message.
//!
//! A payload on the wire is the object `{"qaulId":Q,"message":M}` where each
//! field is either `null` or an array of byte values in decimal. The encoder
//! below produces the canonical compact form (no whitespace, no leading
//! zeros); the parser accepts exactly the texts the spec-level parser
//! [`parse_envelope`] accepts, and parsing an encoded envelope gives the
//! fields back.

use vstd::prelude::*;

verus! {

/// Whether a character is a decimal digit.
pub open spec fn is_digit(c: u8) -> bool {
    0x30 <= c <= 0x39
}

/// The canonical decimal text of a byte value.
pub open spec fn dec_of(n: u8) -> Seq<u8> {
    if n < 10 {
        seq![(0x30 + n) as u8]
    } else if n < 100 {
        seq![(0x30 + n / 10) as u8, (0x30 + n % 10) as u8]
    } else {
        seq![(0x30 + n / 100) as u8, (0x30 + (n / 10) % 10) as u8, (0x30 + n % 10) as u8]
    }
}

/// Comma-separated decimal texts of a byte string.
pub open spec fn dec_list(s: Seq<u8>) -> Seq<u8>
    decreases s.len(),
{
    if s.len() == 0 {
        Seq::empty()
    } else if s.len() == 1 {
        dec_of(s[0])
    } else {
        dec_of(s[0]) + seq![0x2cu8] + dec_list(s.drop_first())
    }
}

/// The text of one field value: `null` or `[..]`.
pub open spec fn json_value(v: Option<Seq<u8>>) -> Seq<u8> {
    match v {
        None => null_text(),
        Some(s) => seq![0x5bu8] + dec_list(s) + seq![0x5du8],
    }
}

/// The text `null`.
pub open spec fn null_text() -> Seq<u8> {
    seq![0x6eu8, 0x75u8, 0x6cu8, 0x6cu8]
}

/// The text `{"qaulId":`.
pub open spec fn qaul_id_key() -> Seq<u8> {
    seq![0x7bu8, 0x22u8, 0x71u8, 0x61u8, 0x75u8, 0x6cu8, 0x49u8, 0x64u8, 0x22u8, 0x3au8]
}

/// The text `,"message":`.
pub open spec fn message_key() -> Seq<u8> {
    seq![0x2cu8, 0x22u8, 0x6du8, 0x65u8, 0x73u8, 0x73u8, 0x61u8, 0x67u8, 0x65u8, 0x22u8, 0x3au8]
}

/// The canonical envelope text for a pair of optional byte strings.
pub open spec fn envelope_json(q: Option<Seq<u8>>, m: Option<Seq<u8>>) -> Seq<u8> {
    qaul_id_key() + json_value(q) + message_key() + json_value(m) + seq![0x7du8]
}

// ------------------------------------------------------------------
// The spec-level parser. Each function returns the parsed value and the
// number of characters consumed, or `None` when the text does not start
// with a well-formed item.
// ------------------------------------------------------------------

/// Parse one canonical decimal byte value at the start of `b`.
pub open spec fn parse_dec(b: Seq<u8>) -> Option<(u8, int)> {
    if b.len() >= 1 && is_digit(b[0]) {
        if b[0] == 0x30 {
            Some((0u8, 1))
        } else if b.len() >= 2 && is_digit(b[1]) {
            if b.len() >= 3 && is_digit(b[2]) {
                let v = (b[0] - 0x30) * 100 + (b[1] - 0x30) * 10 + (b[2] - 0x30);
                if v <= 255 {
                    Some(((v as u8), 3))
                } else {
                    None
                }
            } else {
                Some((((b[0] - 0x30) * 10 + (b[1] - 0x30)) as u8, 2))
            }
        } else {
            Some(((b[0] - 0x30) as u8, 1))
        }
    } else {
        None
    }
}

/// Parse the elements of a non-empty array, up to and including the
/// closing bracket.
pub open spec fn parse_elems(b: Seq<u8>) -> Option<(Seq<u8>, int)>
    decreases b.len(),
{
    match parse_dec(b) {
        None => None,
        Some((v, k)) => {
            if k < b.len() && b[k] == 0x2c {
                match parse_elems(b.skip(k + 1)) {
                    None => None,
                    Some((vs, j)) => Some((seq![v] + vs, k + 1 + j)),
                }
            } else if k < b.len() && b[k] == 0x5d {
                Some((seq![v], k + 1))
            } else {
                None
            }
        },
    }
}

/// Parse one field value: `null` or an array of byte values.
pub open spec fn parse_value(b: Seq<u8>) -> Option<(Option<Seq<u8>>, int)> {
    if b.len() >= 4 && b.take(4) == null_text() {
        Some((None, 4))
    } else if b.len() >= 2 && b[0] == 0x5b && b[1] == 0x5d {
        Some((Some(Seq::empty()), 2))
    } else if b.len() >= 1 && b[0] == 0x5b {
        match parse_elems(b.skip(1)) {
            None => None,
            Some((vs, j)) => Some((Some(vs), 1 + j)),
        }
    } else {
        None
    }
}

/// Parse a whole envelope. The text must consist of exactly the two keys in
/// canonical order, their values, and the closing brace.
pub open spec fn parse_envelope(b: Seq<u8>) -> Option<(Option<Seq<u8>>, Option<Seq<u8>>)> {
    if b.len() >= 10 && b.take(10) == qaul_id_key() {
        match parse_value(b.skip(10)) {
            None => None,
            Some((q, k)) => {
                let b2 = b.skip(10 + k);
                if b2.len() >= 11 && b2.take(11) == message_key() {
                    match parse_value(b2.skip(11)) {
                        None => None,
                        Some((m, j)) => {
                            if b2.skip(11 + j) =~= seq![0x7du8] {
                                Some((q, m))
                            } else {
                                None
                            }
                        },
                    }
                } else {
                    None
                }
            },
        }
    } else {
        None
    }
}

// ------------------------------------------------------------------
// Round trip: parsing a canonical envelope returns the original fields.
// ------------------------------------------------------------------

proof fn lemma_parse_dec_of(n: u8, rest: Seq<u8>)
    requires
        rest.len() == 0 || !is_digit(rest[0]),
    ensures
        parse_dec(dec_of(n) + rest) == Some((n, dec_of(n).len() as int)),
{
    let b = dec_of(n) + rest;
    if n < 10 {
        assert(b[0] == 0x30 + n);
        if n == 0 {
        } else {
            assert(b.len() >= 2 ==> b[1] == rest[0]);
        }
    } else if n < 100 {
        assert(b[0] == 0x30 + n / 10 && b[1] == 0x30 + n % 10);
        assert(b[0] != 0x30);
        assert(b.len() >= 3 ==> b[2] == rest[0]);
    } else {
        assert(b[0] == 0x30 + n / 100 && b[1] == 0x30 + (n / 10) % 10 && b[2] == 0x30 + n % 10);
        assert(b[0] != 0x30);
        assert(b.len() >= 4 ==> b[3] == rest[0]);
        assert((b[0] - 0x30) * 100 + (b[1] - 0x30) * 10 + (b[2] - 0x30) == n);
    }
}

proof fn lemma_parse_elems_of(s: Seq<u8>, rest: Seq<u8>)
    requires
        s.len() >= 1,
    ensures
        parse_elems(dec_list(s) + seq![0x5du8] + rest) == Some(
            (s, dec_list(s).len() + 1 as int),
        ),
    decreases s.len(),
{
    let b = dec_list(s) + seq![0x5du8] + rest;
    if s.len() == 1 {
        assert(dec_list(s) == dec_of(s[0]));
        assert(b =~= dec_of(s[0]) + (seq![0x5du8] + rest));
        lemma_parse_dec_of(s[0], seq![0x5du8] + rest);
        let k = dec_of(s[0]).len() as int;
        assert(b[k] == (seq![0x5du8] + rest)[0]);
        assert(b[k] == 0x5d);
        assert(seq![s[0]] =~= s);
    } else {
        let tail = s.drop_first();
        assert(dec_list(s) == dec_of(s[0]) + seq![0x2cu8] + dec_list(tail));
        let after = seq![0x2cu8] + dec_list(tail) + seq![0x5du8] + rest;
        assert(b =~= dec_of(s[0]) + after);
        assert(after[0] == 0x2c);
        lemma_parse_dec_of(s[0], after);
        let k = dec_of(s[0]).len() as int;
        assert(b[k] == after[0]);
        assert(b.skip(k + 1) =~= dec_list(tail) + seq![0x5du8] + rest);
        lemma_parse_elems_of(tail, rest);
        let j = dec_list(tail).len() + 1 as int;
        assert(parse_elems(b) == Some((seq![s[0]] + tail, k + 1 + j)));
        assert(seq![s[0]] + tail =~= s);
        assert(k + 1 + j == dec_list(s).len() + 1);
    }
}

proof fn lemma_parse_value_of(v: Option<Seq<u8>>, rest: Seq<u8>)
    ensures
        parse_value(json_value(v) + rest) == Some((v, json_value(v).len() as int)),
{
    let b = json_value(v) + rest;
    match v {
        None => {
            assert(b.take(4) =~= null_text());
        },
        Some(s) => {
            assert(b[0] == 0x5b);
            assert(!(b.len() >= 4 && b.take(4) == null_text())) by {
                if b.len() >= 4 {
                    assert(b.take(4)[0] == b[0]);
                    assert(null_text()[0] == 0x6e);
                }
            }
            if s.len() == 0 {
                assert(dec_list(s) == Seq::<u8>::empty());
                assert(b[1] == 0x5d);
            } else {
                assert(b[1] == dec_list(s)[0]);
                assert(dec_list(s)[0] == dec_of(s[0])[0]);
                assert(is_digit(dec_of(s[0])[0])) by {
                    reveal_digit_shape(s[0]);
                }
                assert(b[1] != 0x5d);
                assert(b.skip(1) =~= dec_list(s) + seq![0x5du8] + rest);
                lemma_parse_elems_of(s, rest);
            }
        },
    }
}

/// The first character of a decimal text is a digit.
proof fn reveal_digit_shape(n: u8)
    ensures
        is_digit(dec_of(n)[0]),
        dec_of(n).len() >= 1,
{
}

/// Parsing the canonical envelope text of any field pair gives back that
/// pair back: the wire grammar loses nothing.
#[verifier::rlimit(60)]
pub proof fn lemma_envelope_round_trip(q: Option<Seq<u8>>, m: Option<Seq<u8>>)
    ensures
        parse_envelope(envelope_json(q, m)) == Some((q, m)),
{
    let b = envelope_json(q, m);
    let tail1 = json_value(q) + message_key() + json_value(m) + seq![0x7du8];
    assert(b =~= qaul_id_key() + tail1);
    assert(b.take(10) =~= qaul_id_key());
    assert(b.skip(10) =~= tail1);
    let rest1 = message_key() + json_value(m) + seq![0x7du8];
    assert(tail1 =~= json_value(q) + rest1);
    lemma_parse_value_of(q, rest1);
    let k = json_value(q).len() as int;
    assert(parse_value(b.skip(10)) == Some((q, k)));
    assert(b.skip(10 + k) =~= rest1);
    assert(rest1.take(11) =~= message_key());
    let rest2 = seq![0x7du8];
    assert(rest1.skip(11) =~= json_value(m) + rest2);
    lemma_parse_value_of(m, rest2);
    let j = json_value(m).len() as int;
    assert(parse_value(rest1.skip(11)) == Some((m, j)));
    assert(rest1.skip(11 + j) =~= rest2);
}

// ------------------------------------------------------------------
// Executable encoder.
// ------------------------------------------------------------------

/// `dec_list` grows on the right one element at a time.
proof fn lemma_dec_list_push(s: Seq<u8>, x: u8)
    ensures
        dec_list(s.push(x)) =~= if s.len() == 0 {
            dec_of(x)
        } else {
            dec_list(s) + seq![0x2cu8] + dec_of(x)
        },
    decreases s.len(),
{
    if s.len() == 0 {
        assert(s.push(x) =~= seq![x]);
        assert(dec_list(seq![x]) == dec_of(seq![x][0]));
        assert(seq![x][0] == x);
    } else if s.len() == 1 {
        assert(s.push(x).drop_first() =~= seq![x]);
        assert(s.push(x)[0] == s[0]);
        assert(dec_list(s.push(x)) == dec_of(s[0]) + seq![0x2cu8] + dec_list(seq![x]));
        assert(dec_list(seq![x]) == dec_of(seq![x][0]));
        assert(seq![x][0] == x);
        assert(dec_list(s) == dec_of(s[0]));
    } else {
        let t = s.drop_first();
        assert(s.push(x).drop_first() =~= t.push(x));
        assert(s.push(x)[0] == s[0]);
        lemma_dec_list_push(t, x);
        assert(dec_list(s.push(x)) == dec_of(s[0]) + seq![0x2cu8] + dec_list(t.push(x)));
        assert(dec_list(t.push(x)) == dec_list(t) + seq![0x2cu8] + dec_of(x));
        assert(dec_list(s) == dec_of(s[0]) + seq![0x2cu8] + dec_list(t));
        assert(dec_of(s[0]) + seq![0x2cu8] + (dec_list(t) + seq![0x2cu8] + dec_of(x)) =~= (dec_of(
            s[0],
        ) + seq![0x2cu8] + dec_list(t)) + seq![0x2cu8] + dec_of(x));
    }
}

/// Append the canonical decimal text of `n`.
fn push_dec(out: &mut Vec<u8>, n: u8)
    ensures
        final(out)@ =~= old(out)@ + dec_of(n),
{
    if n < 10 {
        out.push(0x30 + n);
    } else if n < 100 {
        out.push(0x30 + n / 10);
        out.push(0x30 + n % 10);
    } else {
        out.push(0x30 + n / 100);
        out.push(0x30 + (n / 10) % 10);
        out.push(0x30 + n % 10);
    }
}

/// Append the text of one field value.
fn push_value(out: &mut Vec<u8>, v: &Option<Vec<u8>>)
    ensures
        final(out)@ =~= old(out)@ + json_value(opt_bytes_view(v)),
{
    match v {
        None => {
            out.push(0x6e);
            out.push(0x75);
            out.push(0x6c);
            out.push(0x6c);
            proof {
                assert(out@ =~= old(out)@ + null_text());
            }
        },
        Some(s) => {
            out.push(0x5b);
            let ghost base = out@;
            let mut i: usize = 0;
            while i < s.len()
                invariant
                    i <= s.len(),
                    out@ =~= base + dec_list(s@.take(i as int)),
                decreases s.len() - i,
            {
                if i > 0 {
                    out.push(0x2c);
                }
                push_dec(out, s[i]);
                proof {
                    assert(s@.take(i + 1) =~= s@.take(i as int).push(s@[i as int]));
                    lemma_dec_list_push(s@.take(i as int), s@[i as int]);
                }
                i = i + 1;
            }
            out.push(0x5d);
            proof {
                assert(s@.take(s@.len() as int) =~= s@);
                assert(out@ =~= old(out)@ + (seq![0x5bu8] + dec_list(s@) + seq![0x5du8]));
            }
        },
    }
}

/// The field view of an optional byte vector.
pub open spec fn opt_bytes_view(v: &Option<Vec<u8>>) -> Option<Seq<u8>> {
    match v {
        None => None,
        Some(s) => Some(s@),
    }
}

// ------------------------------------------------------------------
// Executable decoder. Each scanner's result is pinned to the spec-level
// parser applied at the scan position.
// ------------------------------------------------------------------

/// Scan one decimal byte value at position `i`.
fn scan_dec(b: &Vec<u8>, i: usize) -> (r: Option<(u8, usize)>)
    requires
        i <= b.len(),
    ensures
        match r {
            Some(p) => parse_dec(b@.skip(i as int)) == Some((p.0, p.1 as int)) && i + p.1
                <= b.len() && p.1 >= 1,
            None => parse_dec(b@.skip(i as int)) is None,
        },
{
    let ghost t = b@.skip(i as int);
    proof {
        assert forall|j: int| 0 <= j < t.len() implies t[j] == b@[i + j] by {}
    }
    if i < b.len() && 0x30 <= b[i] && b[i] <= 0x39 {
        if b[i] == 0x30 {
            Some((0, 1))
        } else if i + 1 < b.len() && 0x30 <= b[i + 1] && b[i + 1] <= 0x39 {
            if i + 2 < b.len() && 0x30 <= b[i + 2] && b[i + 2] <= 0x39 {
                let v: u16 = (b[i] - 0x30) as u16 * 100 + (b[i + 1] - 0x30) as u16 * 10 + (b[i + 2]
                    - 0x30) as u16;
                if v <= 255 {
                    Some((v as u8, 3))
                } else {
                    None
                }
            } else {
                Some(((b[i] - 0x30) * 10 + (b[i + 1] - 0x30), 2))
            }
        } else {
            Some((b[i] - 0x30, 1))
        }
    } else {
        None
    }
}

/// Scan the elements of a non-empty array starting at position `i`,
/// consuming the closing bracket.
fn scan_elems(b: &Vec<u8>, i: usize) -> (r: Option<(Vec<u8>, usize)>)
    requires
        i <= b.len(),
    ensures
        match r {
            Some(p) => parse_elems(b@.skip(i as int)) == Some((p.0@, p.1 as int)) && i + p.1
                <= b.len(),
            None => parse_elems(b@.skip(i as int)) is None,
        },
{
    let mut elems: Vec<u8> = Vec::new();
    let mut cur: usize = i;
    loop
        invariant
            i <= cur <= b.len(),
            match parse_elems(b@.skip(cur as int)) {
                Some(p) => parse_elems(b@.skip(i as int)) == Some(
                    (elems@ + p.0, (cur - i) + p.1),
                ),
                None => parse_elems(b@.skip(i as int)) is None,
            },
        decreases b.len() - cur,
    {
        let ghost t = b@.skip(cur as int);
        proof {
            assert forall|j: int| 0 <= j < t.len() implies t[j] == b@[cur + j] by {}
        }
        let (v, k) = match scan_dec(b, cur) {
            Some(p) => p,
            None => {
                return None;
            },
        };
        if cur + k < b.len() && b[cur + k] == 0x2c {
            proof {
                assert(t.skip(k + 1) =~= b@.skip(cur + k + 1));
                if parse_elems(b@.skip(cur + k + 1)) is Some {
                    let p = parse_elems(b@.skip(cur + k + 1)).unwrap();
                    assert(elems@ + (seq![v] + p.0) =~= elems@.push(v) + p.0);
                }
            }
            elems.push(v);
            cur = cur + k + 1;
        } else if cur + k < b.len() && b[cur + k] == 0x5d {
            proof {
                assert(elems@ + seq![v] =~= elems@.push(v));
            }
            elems.push(v);
            return Some((elems, cur + k + 1 - i));
        } else {
            return None;
        }
    }
}

/// Scan one field value at position `i`.
fn scan_value(b: &Vec<u8>, i: usize) -> (r: Option<(Option<Vec<u8>>, usize)>)
    requires
        i <= b.len(),
    ensures
        match r {
            Some(p) => parse_value(b@.skip(i as int)) == Some((opt_bytes_view(&p.0), p.1 as int))
                && i + p.1 <= b.len(),
            None => parse_value(b@.skip(i as int)) is None,
        },
{
    let ghost t = b@.skip(i as int);
    proof {
        assert forall|j: int| 0 <= j < t.len() implies t[j] == b@[i + j] by {}
    }
    if b.len() - i >= 4 && b[i] == 0x6e && b[i + 1] == 0x75 && b[i + 2] == 0x6c && b[i + 3]
        == 0x6c {
        proof {
            assert(t.take(4) =~= null_text());
        }
        Some((None, 4))
    } else if b.len() - i >= 2 && b[i] == 0x5b && b[i + 1] == 0x5d {
        proof {
            if t.len() >= 4 {
                assert(t.take(4)[0] == t[0]);
                assert(t.take(4) != null_text());
            }
        }
        Some((Some(Vec::new()), 2))
    } else if i < b.len() && b[i] == 0x5b {
        proof {
            if t.len() >= 4 {
                assert(t.take(4)[0] == t[0]);
                assert(t.take(4) != null_text());
            }
            assert(t.skip(1) =~= b@.skip(i + 1));
        }
        match scan_elems(b, i + 1) {
            Some((vs, j)) => Some((Some(vs), 1 + j)),
            None => None,
        }
    } else {
        proof {
            if t.len() >= 4 {
                assert(t.take(4)[0] == t[0]);
                assert(t.take(4) != null_text());
            }
        }
        None
    }
}

/// Decode an envelope text. The result is exactly what the spec-level
/// parser returns; in particular, decoding an encoded envelope returns the
/// field pair it was built from.
pub fn decode_envelope(b: &Vec<u8>) -> (r: Option<(Option<Vec<u8>>, Option<Vec<u8>>)>)
    ensures
        match r {
            Some(p) => parse_envelope(b@) == Some((opt_bytes_view(&p.0), opt_bytes_view(&p.1))),
            None => parse_envelope(b@) is None,
        },
{
    if b.len() < 10 {
        proof {
            if b@.len() >= 10 {
            }
        }
        return None;
    }
    let mut ok = true;
    if !(b[0] == 0x7b && b[1] == 0x22 && b[2] == 0x71 && b[3] == 0x61 && b[4] == 0x75 && b[5]
        == 0x6c && b[6] == 0x49 && b[7] == 0x64 && b[8] == 0x22 && b[9] == 0x3a) {
        ok = false;
    }
    proof {
        if ok {
            assert(b@.take(10) =~= qaul_id_key());
        } else {
            assert(b@.take(10) != qaul_id_key()) by {
                if b@.take(10) == qaul_id_key() {
                    assert(forall|j: int| 0 <= j < 10 ==> b@.take(10)[j] == b@[j]);
                }
            }
        }
    }
    if !ok {
        return None;
    }
    let (q, k) = match scan_value(b, 10) {
        Some(p) => p,
        None => {
            return None;
        },
    };
    let p1 = 10 + k;
    let ghost b2 = b@.skip(p1 as int);
    proof {
        assert forall|j: int| 0 <= j < b2.len() implies b2[j] == b@[p1 + j] by {}
    }
    if b.len() - p1 < 11 {
        return None;
    }
    if !(b[p1] == 0x2c && b[p1 + 1] == 0x22 && b[p1 + 2] == 0x6d && b[p1 + 3] == 0x65 && b[p1 + 4]
        == 0x73 && b[p1 + 5] == 0x73 && b[p1 + 6] == 0x61 && b[p1 + 7] == 0x67 && b[p1 + 8] == 0x65
        && b[p1 + 9] == 0x22 && b[p1 + 10] == 0x3a) {
        proof {
            assert(b2.take(11) != message_key()) by {
                if b2.take(11) == message_key() {
                    assert(forall|j: int| 0 <= j < 11 ==> b2.take(11)[j] == b2[j]);
                }
            }
        }
        return None;
    }
    proof {
        assert(b2.take(11) =~= message_key());
        assert(b2.skip(11) =~= b@.skip(p1 + 11));
    }
    let (m, j) = match scan_value(b, p1 + 11) {
        Some(p) => p,
        None => {
            return None;
        },
    };
    let p2 = p1 + 11 + j;
    proof {
        assert(b2.skip(11 + j as int) =~= b@.skip(p2 as int));
        assert forall|x: int| 0 <= x < b@.skip(p2 as int).len() implies b@.skip(p2 as int)[x] == b@[p2 + x] by {}
    }
    if b.len() - p2 == 1 && b[p2] == 0x7d {
        proof {
            assert(b@.skip(p2 as int) =~= seq![0x7du8]);
        }
        Some((q, m))
    } else {
        proof {
            if b@.skip(p2 as int) =~= seq![0x7du8] {
                assert(b@.skip(p2 as int)[0] == 0x7d);
                assert(b@.skip(p2 as int)[0] == b@[p2 as int]);
                assert(b@.skip(p2 as int).len() == 1);
                assert(false);
            }
        }
        None
    }
}

/// Encode an envelope in canonical form.
pub fn encode_envelope(qaul_id: &Option<Vec<u8>>, message: &Option<Vec<u8>>) -> (r: Vec<u8>)
    ensures
        r@ =~= envelope_json(opt_bytes_view(qaul_id), opt_bytes_view(message)),
{
    let mut out: Vec<u8> = Vec::new();
    out.push(0x7b);
    out.push(0x22);
    out.push(0x71);
    out.push(0x61);
    out.push(0x75);
    out.push(0x6c);
    out.push(0x49);
    out.push(0x64);
    out.push(0x22);
    out.push(0x3a);
    proof {
        assert(out@ =~= qaul_id_key());
    }
    push_value(&mut out, qaul_id);
    out.push(0x2c);
    out.push(0x22);
    out.push(0x6d);
    out.push(0x65);
    out.push(0x73);
    out.push(0x73);
    out.push(0x61);
    out.push(0x67);
    out.push(0x65);
    out.push(0x22);
    out.push(0x3a);
    proof {
        assert(out@ =~= qaul_id_key() + json_value(opt_bytes_view(qaul_id)) + message_key());
    }
    push_value(&mut out, message);
    out.push(0x7d);
    out
}

} // verus!
