//! The protobuf wire layer shared by the command and event channels.
//!
//! Messages travel as protobuf: a sequence of fields, each a key varint
//! (field number and wire type) followed by a varint value or a
//! length-delimited payload. This module gives the varint and field codecs
//! an exact byte-level specification and proves that parsing an encoded
//! field list returns it unchanged. The message modules build on the field
//! layer: an encoder states its output as a field list, a decoder reads the
//! field list and interprets it, the last occurrence of a field winning.

use vstd::prelude::*;

verus! {

/// The little-endian base-128 varint text of a value.
pub open spec fn varint(n: u64) -> Seq<u8>
    decreases n,
{
    if n < 128 {
        seq![n as u8]
    } else {
        seq![(128 + (n % 128)) as u8] + varint(n / 128)
    }
}

/// Parse one varint: the value and the number of bytes consumed. Only the
/// minimal encoding is accepted: a continuation must carry a non-zero
/// remainder, as the encoder writes it.
pub open spec fn parse_varint(b: Seq<u8>) -> Option<(u64, int)>
    decreases b.len(),
{
    if b.len() == 0 {
        None
    } else if b[0] < 128 {
        Some((b[0] as u64, 1))
    } else {
        match parse_varint(b.skip(1)) {
            None => None,
            Some((v, k)) => {
                if v == 0 {
                    None
                } else if (b[0] - 128) + 128 * v < 0x10000000000000000 {
                    Some((((b[0] - 128) + 128 * v) as u64, k + 1))
                } else {
                    None
                }
            },
        }
    }
}

pub proof fn lemma_varint_round_trip(n: u64, rest: Seq<u8>)
    ensures
        parse_varint(varint(n) + rest) == Some((n, varint(n).len() as int)),
    decreases n,
{
    let b = varint(n) + rest;
    if n < 128 {
        assert(b[0] == n);
    } else {
        assert(b[0] == 128 + (n % 128));
        assert(b.skip(1) =~= varint(n / 128) + rest);
        lemma_varint_round_trip(n / 128, rest);
        assert(n / 128 >= 1);
        assert((b[0] - 128) + 128 * (n / 128) == n) by {
            assert(n % 128 + 128 * (n / 128) == n);
        }
    }
}

/// One decoded field: a varint field or a length-delimited field.
pub enum GField {
    Num(u64, u64),
    Bytes(u64, Seq<u8>),
}

/// The wire text of one field.
pub open spec fn encode_field(f: GField) -> Seq<u8> {
    match f {
        GField::Num(fl, v) => varint((fl * 8) as u64) + varint(v),
        GField::Bytes(fl, d) => varint((fl * 8 + 2) as u64) + varint(d.len() as u64) + d,
    }
}

/// The wire text of a field list.
pub open spec fn encode_fields(fs: Seq<GField>) -> Seq<u8>
    decreases fs.len(),
{
    if fs.len() == 0 {
        Seq::empty()
    } else {
        encode_field(fs[0]) + encode_fields(fs.drop_first())
    }
}

/// A field number an encoder can carry in one key byte times eight.
pub open spec fn field_ok(f: GField) -> bool {
    match f {
        GField::Num(fl, v) => fl < 0x1000000000000000,
        GField::Bytes(fl, d) => fl < 0x1000000000000000 && d.len() < 0x10000000000000000,
    }
}

/// Parse a whole buffer into its field list. Only varint and
/// length-delimited fields are accepted; anything else rejects the buffer.
pub open spec fn parse_fields(b: Seq<u8>) -> Option<Seq<GField>>
    decreases b.len() via parse_fields_decreases
{
    if b.len() == 0 {
        Some(Seq::empty())
    } else {
        match parse_varint(b) {
            None => None,
            Some((k, c)) => {
                if k % 8 == 0 {
                    match parse_varint(b.skip(c)) {
                        None => None,
                        Some((v, c2)) => {
                            match parse_fields(b.skip(c + c2)) {
                                None => None,
                                Some(fs) => Some(seq![GField::Num(k / 8, v)] + fs),
                            }
                        },
                    }
                } else if k % 8 == 2 {
                    match parse_varint(b.skip(c)) {
                        None => None,
                        Some((l, c2)) => {
                            if b.len() - c - c2 >= l {
                                match parse_fields(b.skip(c + c2 + l)) {
                                    None => None,
                                    Some(fs) => Some(
                                        seq![
                                            GField::Bytes(
                                                k / 8,
                                                b.subrange(c + c2, c + c2 + l),
                                            ),
                                        ] + fs,
                                    ),
                                }
                            } else {
                                None
                            }
                        },
                    }
                } else {
                    None
                }
            },
        }
    }
}

proof fn lemma_parse_varint_consumes(b: Seq<u8>)
    ensures
        parse_varint(b) matches Some(p) ==> 1 <= p.1 <= b.len(),
    decreases b.len(),
{
    if b.len() > 0 && b[0] >= 128 {
        lemma_parse_varint_consumes(b.skip(1));
    }
}

#[via_fn]
proof fn parse_fields_decreases(b: Seq<u8>) {
    lemma_parse_varint_consumes(b);
    if b.len() > 0 {
        match parse_varint(b) {
            None => {},
            Some((k, c)) => {
                lemma_parse_varint_consumes(b.skip(c));
            },
        }
    }
}

/// Parsing the wire text of a field list returns the list.
#[verifier::rlimit(60)]
pub proof fn lemma_fields_round_trip(fs: Seq<GField>, rest: Seq<u8>)
    requires
        forall|i: int| 0 <= i < fs.len() ==> field_ok(#[trigger] fs[i]),
        parse_fields(rest) is Some,
    ensures
        parse_fields(encode_fields(fs) + rest) matches Some(r) && r =~= fs
            + parse_fields(rest).unwrap(),
    decreases fs.len(),
{
    if fs.len() == 0 {
        assert(encode_fields(fs) + rest =~= rest);
    } else {
        let b = encode_fields(fs) + rest;
        let tail = encode_fields(fs.drop_first()) + rest;
        assert(field_ok(fs[0]));
        match fs[0] {
            GField::Num(fl, v) => {
                let kv = (fl * 8) as u64;
                assert(kv == fl * 8);
                assert(b =~= varint(kv) + (varint(v) + tail));
                lemma_varint_round_trip(kv, varint(v) + tail);
                let c = varint(kv).len() as int;
                assert(kv % 8 == 0 && kv / 8 == fl) by (nonlinear_arith)
                    requires
                        kv == fl * 8,
                ;
                assert(b.skip(c) =~= varint(v) + tail);
                lemma_varint_round_trip(v, tail);
                let c2 = varint(v).len() as int;
                assert(b.skip(c + c2) =~= tail);
                lemma_fields_round_trip(fs.drop_first(), rest);
                assert(b.len() > 0);
                assert(seq![GField::Num(fl, v)] + (fs.drop_first() + parse_fields(rest).unwrap())
                    =~= fs + parse_fields(rest).unwrap());
            },
            GField::Bytes(fl, d) => {
                let kv = (fl * 8 + 2) as u64;
                assert(kv == fl * 8 + 2);
                assert(b =~= varint(kv) + (varint(d.len() as u64) + (d + tail)));
                lemma_varint_round_trip(kv, varint(d.len() as u64) + (d + tail));
                let c = varint(kv).len() as int;
                assert(kv % 8 == 2 && kv / 8 == fl) by (nonlinear_arith)
                    requires
                        kv == fl * 8 + 2,
                ;
                assert(b.skip(c) =~= varint(d.len() as u64) + (d + tail));
                lemma_varint_round_trip(d.len() as u64, d + tail);
                let c2 = varint(d.len() as u64).len() as int;
                assert(b.skip(c + c2) =~= d + tail);
                let l = d.len() as int;
                assert(b.len() - c - c2 >= l);
                assert(b.subrange(c + c2, c + c2 + l) =~= d);
                assert(b.skip(c + c2 + l) =~= tail);
                lemma_fields_round_trip(fs.drop_first(), rest);
                assert(b.len() > 0);
                assert(seq![GField::Bytes(fl, d)] + (fs.drop_first() + parse_fields(rest).unwrap())
                    =~= fs + parse_fields(rest).unwrap());
            },
        }
    }
}

// ------------------------------------------------------------------
// Executable codec.
// ------------------------------------------------------------------

/// Append the varint text of a value.
pub fn push_varint(out: &mut Vec<u8>, n: u64)
    ensures
        final(out)@ =~= old(out)@ + varint(n),
{
    let mut cur: u64 = n;
    while cur >= 128
        invariant
            out@ + varint(cur) =~= old(out)@ + varint(n),
        decreases cur,
    {
        out.push((cur % 128) as u8 + 128);
        cur = cur / 128;
    }
    out.push(cur as u8);
}

/// Append one varint field.
pub fn push_field_num(out: &mut Vec<u8>, field: u64, v: u64)
    requires
        field < 0x1000000000000000,
    ensures
        final(out)@ =~= old(out)@ + encode_field(GField::Num(field, v)),
{
    push_varint(out, field * 8);
    push_varint(out, v);
}

/// Append one length-delimited field.
pub fn push_field_bytes(out: &mut Vec<u8>, field: u64, data: &Vec<u8>)
    requires
        field < 0x1000000000000000,
    ensures
        final(out)@ =~= old(out)@ + encode_field(GField::Bytes(field, data@)),
{
    push_varint(out, field * 8 + 2);
    push_varint(out, data.len() as u64);
    let mut i: usize = 0;
    while i < data.len()
        invariant
            i <= data.len(),
            out@ =~= old(out)@ + varint((field * 8 + 2) as u64) + varint(data@.len() as u64) + data@.take(
                i as int,
            ),
        decreases data.len() - i,
    {
        out.push(data[i]);
        i = i + 1;
    }
    proof {
        assert(data@.take(data@.len() as int) =~= data@);
    }
}

/// One decoded field carried at run time.
pub enum FieldVal {
    Num(u64, u64),
    Bytes(u64, Vec<u8>),
}

/// The spec value of a run-time field.
pub open spec fn field_view(f: &FieldVal) -> GField {
    match f {
        FieldVal::Num(fl, v) => GField::Num(*fl, *v),
        FieldVal::Bytes(fl, d) => GField::Bytes(*fl, d@),
    }
}

pub open spec fn fields_view(fs: Seq<FieldVal>) -> Seq<GField> {
    fs.map_values(|f: FieldVal| field_view(&f))
}

/// The loop relation of the varint reader: what the remaining suffix
/// parses to determines what the whole text parses to, given the digits
/// already accumulated.
pub open spec fn varint_inv(whole: Seq<u8>, t: Seq<u8>, value: u64, shift_mul: u64, k: int) -> bool {
    match parse_varint(t) {
        Some(p) => {
            &&& (k > 0 && p.0 == 0 ==> parse_varint(whole) is None)
            &&& (!(k > 0 && p.0 == 0) && p.0 <= (u64::MAX - value) / (shift_mul as int)
                ==> parse_varint(whole) == Some((((value + p.0 * shift_mul) as u64), k + p.1)))
            &&& (p.0 > (u64::MAX - value) / (shift_mul as int) ==> parse_varint(whole) is None)
        },
        None => parse_varint(whole) is None,
    }
}

/// A continuation that parses carries a value of at least 128 and at least
/// its first digit.
proof fn lemma_parse_cont(t: Seq<u8>)
    requires
        t.len() >= 1,
        t[0] >= 128,
        parse_varint(t) is Some,
    ensures
        parse_varint(t.skip(1)) is Some,
        parse_varint(t.skip(1)).unwrap().0 >= 1,
        parse_varint(t).unwrap().0 == (t[0] - 128) + 128 * parse_varint(t.skip(1)).unwrap().0,
        parse_varint(t).unwrap().0 >= 128,
        parse_varint(t).unwrap().0 >= t[0] - 128,
{
}

proof fn lemma_varint_step(whole: Seq<u8>, t: Seq<u8>, value: u64, shift_mul: u64, k: int)
    requires
        t.len() >= 1,
        t[0] >= 128,
        shift_mul >= 1,
        shift_mul <= u64::MAX / 128,
        (t[0] - 128) <= (u64::MAX - value) / (shift_mul as int),
        varint_inv(whole, t, value, shift_mul, k),
        k >= 0,
    ensures
        varint_inv(
            whole,
            t.skip(1),
            (value + (t[0] - 128) * shift_mul) as u64,
            (shift_mul * 128) as u64,
            k + 1,
        ),
{
    let d = (t[0] - 128) as u64;
    assert(d * shift_mul <= u64::MAX - value) by (nonlinear_arith)
        requires
            shift_mul >= 1,
            d <= (u64::MAX - value) / (shift_mul as int),
    ;
    let value2 = (value + d * shift_mul) as u64;
    let shift2 = (shift_mul * 128) as u64;
    assert(shift2 == shift_mul * 128);
    match parse_varint(t.skip(1)) {
        None => {
            assert(parse_varint(t) is None);
        },
        Some((v, k2)) => {
            if v == 0 {
                assert(parse_varint(t) is None);
            } else if d + 128 * v < 0x10000000000000000 {
                let pv = (d + 128 * v) as u64;
                assert(parse_varint(t) == Some((pv, k2 + 1)));
                assert(pv >= 128);
                assert(value + pv * shift_mul == value2 + v * shift2) by (nonlinear_arith)
                    requires
                        pv == d + 128 * v,
                        value2 == value + d * shift_mul,
                        shift2 == shift_mul * 128,
                ;
                assert((pv <= (u64::MAX - value) / (shift_mul as int)) == (v <= (u64::MAX - value2)
                    / (shift2 as int))) by (nonlinear_arith)
                    requires
                        pv == d + 128 * v,
                        value2 == value + d * shift_mul,
                        shift2 == shift_mul * 128,
                        shift_mul >= 1,
                        d < 128,
                        value2 <= u64::MAX,
                ;
            } else {
                assert(parse_varint(t) is None);
                assert(v > (u64::MAX - value2) / (shift2 as int)) by (nonlinear_arith)
                    requires
                        d + 128 * v >= 0x10000000000000000,
                        value2 == value + d * shift_mul,
                        shift2 == shift_mul * 128,
                        shift_mul >= 1,
                        d < 128,
                        value2 <= u64::MAX,
                ;
            }
        },
    }
}

/// Read one varint at position `i`.
fn read_varint(b: &Vec<u8>, i: usize) -> (r: Option<(u64, usize)>)
    requires
        i <= b.len(),
    ensures
        match r {
            Some(p) => parse_varint(b@.skip(i as int)) == Some((p.0, p.1 as int)) && 1 <= p.1 && i
                + p.1 <= b.len(),
            None => parse_varint(b@.skip(i as int)) is None,
        },
{
    let mut value: u64 = 0;
    let mut shift_mul: u64 = 1;
    let mut k: usize = 0;
    proof {
        assert(varint_inv(b@.skip(i as int), b@.skip(i as int), 0, 1, 0));
    }
    loop
        invariant
            i + k <= b.len(),
            shift_mul >= 1,
            varint_inv(b@.skip(i as int), b@.skip(i + k), value, shift_mul, k as int),
        decreases b.len() - i - k,
    {
        let ghost whole = b@.skip(i as int);
        let ghost t = b@.skip(i + k);
        if i + k >= b.len() {
            proof {
                assert(t.len() == 0);
            }
            return None;
        }
        let c = b[i + k];
        proof {
            assert(t[0] == b@[i + k]);
            assert(t.skip(1) =~= b@.skip(i + k + 1));
        }
        if c < 128 {
            if k > 0 && c == 0 {
                return None;
            }
            let add: u64 = c as u64;
            if add <= (u64::MAX - value) / shift_mul {
                proof {
                    assert(add * shift_mul <= u64::MAX - value) by (nonlinear_arith)
                        requires
                            shift_mul >= 1,
                            add <= (u64::MAX - value) / (shift_mul as int),
                    ;
                    lemma_parse_varint_consumes(whole);
                }
                return Some((value + add * shift_mul, k + 1));
            } else {
                return None;
            }
        } else {
            let add: u64 = (c - 128) as u64;
            if shift_mul > u64::MAX / 128 {
                proof {
                    if parse_varint(t) is Some {
                        lemma_parse_cont(t);
                        assert((u64::MAX - value) / (shift_mul as int) < 128) by (nonlinear_arith)
                            requires
                                shift_mul > u64::MAX / 128,
                                value >= 0,
                        ;
                    }
                }
                return None;
            }
            if add > (u64::MAX - value) / shift_mul {
                proof {
                    if parse_varint(t) is Some {
                        lemma_parse_cont(t);
                    }
                }
                return None;
            }
            proof {
                lemma_varint_step(whole, t, value, shift_mul, k as int);
                assert(add * shift_mul <= u64::MAX - value) by (nonlinear_arith)
                    requires
                        shift_mul >= 1,
                        add <= (u64::MAX - value) / (shift_mul as int),
                ;
            }
            value = value + add * shift_mul;
            shift_mul = shift_mul * 128;
            k = k + 1;
        }
    }
}


/// The last length-delimited payload carried under a field number, if any:
/// the later occurrence of a field wins.
pub open spec fn last_bytes(fs: Seq<GField>, field: u64) -> Option<Seq<u8>>
    decreases fs.len(),
{
    if fs.len() == 0 {
        None
    } else {
        match fs.last() {
            GField::Bytes(fl, d) => if fl == field {
                Some(d)
            } else {
                last_bytes(fs.drop_last(), field)
            },
            GField::Num(fl, v) => last_bytes(fs.drop_last(), field),
        }
    }
}

/// The last varint value carried under a field number, if any.
pub open spec fn last_num(fs: Seq<GField>, field: u64) -> Option<u64>
    decreases fs.len(),
{
    if fs.len() == 0 {
        None
    } else {
        match fs.last() {
            GField::Num(fl, v) => if fl == field {
                Some(v)
            } else {
                last_num(fs.drop_last(), field)
            },
            GField::Bytes(fl, d) => last_num(fs.drop_last(), field),
        }
    }
}

/// Copy a byte vector.
pub fn clone_bytes(v: &Vec<u8>) -> (r: Vec<u8>)
    ensures
        r@ == v@,
{
    let mut out: Vec<u8> = Vec::new();
    let mut i: usize = 0;
    while i < v.len()
        invariant
            i <= v.len(),
            out@ =~= v@.take(i as int),
        decreases v.len() - i,
    {
        out.push(v[i]);
        i = i + 1;
    }
    proof {
        assert(v@.take(v@.len() as int) =~= v@);
    }
    out
}

/// The last length-delimited payload for a field, copied out.
pub fn get_last_bytes(fs: &Vec<FieldVal>, field: u64) -> (r: Option<Vec<u8>>)
    ensures
        match r {
            Some(d) => last_bytes(fields_view(fs@), field) == Some(d@),
            None => last_bytes(fields_view(fs@), field) is None,
        },
{
    let ghost gfs = fields_view(fs@);
    let mut i: usize = fs.len();
    proof {
        assert(gfs.take(i as int) =~= gfs);
    }
    while i > 0
        invariant
            i <= fs.len(),
            gfs == fields_view(fs@),
            gfs.len() == fs@.len(),
            last_bytes(gfs, field) == last_bytes(gfs.take(i as int), field),
        decreases i,
    {
        proof {
            assert(gfs.take(i as int).last() == gfs[i - 1]);
            assert(gfs[i - 1] == field_view(&fs@[i - 1]));
            assert(gfs.take(i as int).drop_last() =~= gfs.take(i - 1));
        }
        match &fs[i - 1] {
            FieldVal::Bytes(fl, d) => {
                if *fl == field {
                    return Some(clone_bytes(d));
                }
            },
            FieldVal::Num(fl, v) => {},
        }
        i = i - 1;
    }
    proof {
        assert(gfs.take(0) =~= Seq::<GField>::empty());
    }
    None
}

/// The last varint value for a field.
pub fn get_last_num(fs: &Vec<FieldVal>, field: u64) -> (r: Option<u64>)
    ensures
        r == last_num(fields_view(fs@), field),
{
    let ghost gfs = fields_view(fs@);
    let mut i: usize = fs.len();
    proof {
        assert(gfs.take(i as int) =~= gfs);
    }
    while i > 0
        invariant
            i <= fs.len(),
            gfs == fields_view(fs@),
            gfs.len() == fs@.len(),
            last_num(gfs, field) == last_num(gfs.take(i as int), field),
        decreases i,
    {
        proof {
            assert(gfs.take(i as int).last() == gfs[i - 1]);
            assert(gfs[i - 1] == field_view(&fs@[i - 1]));
            assert(gfs.take(i as int).drop_last() =~= gfs.take(i - 1));
        }
        match &fs[i - 1] {
            FieldVal::Num(fl, v) => {
                if *fl == field {
                    return Some(*v);
                }
            },
            FieldVal::Bytes(fl, d) => {},
        }
        i = i - 1;
    }
    proof {
        assert(gfs.take(0) =~= Seq::<GField>::empty());
    }
    None
}

/// Parse a whole buffer into its field list.
pub fn read_fields(b: &Vec<u8>) -> (r: Option<Vec<FieldVal>>)
    ensures
        match r {
            Some(fs) => parse_fields(b@) == Some(fields_view(fs@)),
            None => parse_fields(b@) is None,
        },
{
    let mut out: Vec<FieldVal> = Vec::new();
    let mut i: usize = 0;
    proof {
        assert(b@.skip(0) =~= b@);
        if parse_fields(b@) is Some {
            assert(fields_view(out@) + parse_fields(b@).unwrap() =~= parse_fields(b@).unwrap());
        }
    }
    loop
        invariant
            i <= b.len(),
            match parse_fields(b@.skip(i as int)) {
                Some(fs) => parse_fields(b@) == Some(fields_view(out@) + fs),
                None => parse_fields(b@) is None,
            },
        decreases b.len() - i,
    {
        let ghost t = b@.skip(i as int);
        if i == b.len() {
            proof {
                assert(t.len() == 0);
                assert(parse_fields(t) == Some(Seq::<GField>::empty()));
                assert(fields_view(out@) + Seq::<GField>::empty() =~= fields_view(out@));
            }
            return Some(out);
        }
        let (key, c) = match read_varint(b, i) {
            Some(p) => p,
            None => {
                return None;
            },
        };
        let wire = key % 8;
        let field = key / 8;
        proof {
            assert(t.skip(c as int) =~= b@.skip(i + c));
        }
        if wire == 0 {
            let (v, c2) = match read_varint(b, i + c) {
                Some(p) => p,
                None => {
                    return None;
                },
            };
            proof {
                assert(t.skip(c + c2) =~= b@.skip(i + c + c2));
                let ghost x = GField::Num(field, v);
                match parse_fields(b@.skip(i + c + c2)) {
                    Some(fs2) => {
                        assert(parse_fields(t) == Some(seq![x] + fs2));
                        assert(fields_view(out@.push(FieldVal::Num(field, v))) =~= fields_view(
                            out@,
                        ).push(x));
                        assert(fields_view(out@).push(x) + fs2 =~= fields_view(out@) + (seq![x]
                            + fs2));
                    },
                    None => {
                        assert(parse_fields(t) is None);
                    },
                }
            }
            out.push(FieldVal::Num(field, v));
            i = i + c + c2;
        } else if wire == 2 {
            let (l, c2) = match read_varint(b, i + c) {
                Some(p) => p,
                None => {
                    return None;
                },
            };
            proof {
                assert(t.skip(c + c2) =~= b@.skip(i + c + c2));
            }
            let pos = i + c + c2;
            if ((b.len() - pos) as u64) < l {
                proof {
                    assert(t.len() - c - c2 < l);
                }
                return None;
            }
            let l_us = l as usize;
            let data = copy_byte_range(b, pos, pos + l_us);
            proof {
                assert(t.skip(c + c2 + l as int) =~= b@.skip(pos + l_us));
                assert(t.subrange(c + c2, c + c2 + l as int) =~= b@.subrange(
                    pos as int,
                    pos + l_us,
                ));
                let ghost x = GField::Bytes(field, b@.subrange(pos as int, pos + l_us));
                match parse_fields(b@.skip(pos + l_us)) {
                    Some(fs2) => {
                        assert(parse_fields(t) == Some(seq![x] + fs2));
                        assert(fields_view(out@.push(FieldVal::Bytes(field, data))) =~= fields_view(
                            out@,
                        ).push(x));
                        assert(fields_view(out@).push(x) + fs2 =~= fields_view(out@) + (seq![x]
                            + fs2));
                    },
                    None => {
                        assert(parse_fields(t) is None);
                    },
                }
            }
            out.push(FieldVal::Bytes(field, data));
            i = pos + l_us;
        } else {
            return None;
        }
    }
}

/// Copy the range `[a, b)` of a byte vector.
pub fn copy_byte_range(v: &Vec<u8>, a: usize, b: usize) -> (r: Vec<u8>)
    requires
        a <= b <= v.len(),
    ensures
        r@ =~= v@.subrange(a as int, b as int),
{
    let mut out: Vec<u8> = Vec::new();
    let mut i: usize = a;
    while i < b
        invariant
            a <= i <= b <= v.len(),
            out@ =~= v@.subrange(a as int, i as int),
        decreases b - i,
    {
        out.push(v[i]);
        i = i + 1;
    }
    out
}


/// All payloads carried under a field number, in order.
pub open spec fn all_bytes(fs: Seq<GField>, field: u64) -> Seq<Seq<u8>>
    decreases fs.len(),
{
    if fs.len() == 0 {
        Seq::empty()
    } else {
        let rest = all_bytes(fs.drop_first(), field);
        match fs[0] {
            GField::Bytes(fl, d) => if fl == field {
                seq![d] + rest
            } else {
                rest
            },
            GField::Num(fl, v) => rest,
        }
    }
}

proof fn lemma_all_bytes_take(fs: Seq<GField>, field: u64, i: int)
    requires
        0 <= i < fs.len(),
    ensures
        all_bytes(fs.take(i + 1), field) =~= all_bytes(fs.take(i), field) + (match fs[i] {
            GField::Bytes(fl, d) => if fl == field {
                seq![d]
            } else {
                Seq::<Seq<u8>>::empty()
            },
            GField::Num(fl, v) => Seq::<Seq<u8>>::empty(),
        }),
    decreases i,
{
    if i == 0 {
        reveal_with_fuel(all_bytes, 3);
        assert(fs.take(1).drop_first() =~= Seq::<GField>::empty());
        assert(fs.take(1)[0] == fs[0]);
        assert(fs.take(0) =~= Seq::<GField>::empty());
    } else {
        assert(fs.take(i + 1)[0] == fs[0]);
        assert(fs.take(i + 1).drop_first() =~= fs.drop_first().take(i));
        assert(fs.take(i)[0] == fs[0]);
        assert(fs.take(i).drop_first() =~= fs.drop_first().take(i - 1));
        lemma_all_bytes_take(fs.drop_first(), field, i - 1);
        assert(fs.drop_first()[i - 1] == fs[i]);
    }
}

/// All payloads for a field number, copied out in order.
pub fn get_all_bytes(fs: &Vec<FieldVal>, field: u64) -> (r: Vec<Vec<u8>>)
    ensures
        r@.len() == all_bytes(fields_view(fs@), field).len(),
        forall|i: int|
            0 <= i < r@.len() ==> #[trigger] r@[i]@ == all_bytes(fields_view(fs@), field)[i],
{
    let ghost gfs = fields_view(fs@);
    let mut out: Vec<Vec<u8>> = Vec::new();
    let mut i: usize = 0;
    proof {
        assert(gfs.take(0) =~= Seq::<GField>::empty());
    }
    while i < fs.len()
        invariant
            i <= fs.len(),
            gfs == fields_view(fs@),
            gfs.len() == fs@.len(),
            out@.len() == all_bytes(gfs.take(i as int), field).len(),
            forall|j: int|
                0 <= j < out@.len() ==> #[trigger] out@[j]@ == all_bytes(
                    gfs.take(i as int),
                    field,
                )[j],
        decreases fs.len() - i,
    {
        proof {
            lemma_all_bytes_take(gfs, field, i as int);
            assert(gfs[i as int] == field_view(&fs@[i as int]));
        }
        match &fs[i] {
            FieldVal::Bytes(fl, d) => {
                if *fl == field {
                    out.push(clone_bytes(d));
                }
            },
            FieldVal::Num(fl, v) => {},
        }
        i = i + 1;
    }
    proof {
        assert(gfs.take(gfs.len() as int) =~= gfs);
    }
    out
}

} // verus!
