//! Framing of payloads for the BLE write channel.
//!
//! A message is the hex expansion of `$$ <envelope> $$`: the two-byte
//! delimiter `0x24 0x24` on both ends of the JSON envelope, all expanded to
//! lowercase hex text (so the delimiter appears on the wire as the four
//! characters `2424`). The hex text is cut into fragments of at most 40
//! characters; the receiver grows a buffer per sender until the closing
//! delimiter arrives and then strips both delimiters.
//!
//! The central fact proved here is that the four-character delimiter text
//! occurs in a framed message only at its two ends, because the envelope
//! grammar never produces a `$` (0x24) or `B` (0x42) byte. Reassembly
//! therefore closes a buffer exactly at the true end of the message.

use vstd::prelude::*;

use crate::hex::bytes_to_hex;
use crate::hex::hex_digit;
use crate::hex::hex_of;
use crate::hex::lemma_hex_of_add;
use crate::hex::lemma_hex_of_index;
use crate::hex::lemma_hex_of_len;
use crate::hex::hex_decoded;
use crate::hex::hex_to_bytes;
use crate::hex::lemma_hex_round_trip;
use crate::wire::dec_list;
use crate::wire::dec_of;
use crate::wire::decode_envelope;
use crate::wire::encode_envelope;
use crate::wire::envelope_json;
use crate::wire::json_value;
use crate::wire::lemma_envelope_round_trip;
use crate::wire::message_key;
use crate::wire::null_text;
use crate::wire::opt_bytes_view;
use crate::wire::parse_envelope;
use crate::wire::qaul_id_key;

verus! {

/// The longest fragment sent in one BLE write: 40 hex characters.
pub const FRAGMENT_LEN: usize = 40;

/// The delimiter text `2424` as it stands in hex-expanded form.
pub open spec fn delim_text() -> Seq<u8> {
    seq![0x32u8, 0x34u8, 0x32u8, 0x34u8]
}

/// The half delimiter text `24`.
pub open spec fn half_delim_text() -> Seq<u8> {
    seq![0x32u8, 0x34u8]
}

/// The delimiter text stands at position `p` of `s`.
pub open spec fn delim_at(s: Seq<u8>, p: int) -> bool {
    &&& 0 <= p
    &&& p + 4 <= s.len()
    &&& s[p] == 0x32
    &&& s[p + 1] == 0x34
    &&& s[p + 2] == 0x32
    &&& s[p + 3] == 0x34
}

/// The delimiter text occurs somewhere in `s`.
pub open spec fn contains_delim(s: Seq<u8>) -> bool {
    exists|p: int| delim_at(s, p)
}

/// A byte that framing can transport without confusion: neither the
/// delimiter byte `$` nor `B`, whose hex forms could produce the delimiter
/// text inside the expansion.
pub open spec fn frame_safe_byte(c: u8) -> bool {
    c != 0x24 && c != 0x42
}

pub open spec fn all_frame_safe(s: Seq<u8>) -> bool {
    forall|i: int| 0 <= i < s.len() ==> frame_safe_byte(#[trigger] s[i])
}

/// A payload wrapped in the two-byte delimiters, before hex expansion.
pub open spec fn wrapped(j: Seq<u8>) -> Seq<u8> {
    seq![0x24u8, 0x24u8] + j + seq![0x24u8, 0x24u8]
}

/// The full framed hex text of a payload.
pub open spec fn framed_hex(j: Seq<u8>) -> Seq<u8> {
    hex_of(wrapped(j))
}

proof fn lemma_hex_digit_inv(x: int)
    requires
        0 <= x < 16,
    ensures
        (hex_digit(x) == 0x32) <==> (x == 2),
        (hex_digit(x) == 0x34) <==> (x == 4),
{
}

proof fn lemma_wrapped_index(j: Seq<u8>, t: int)
    requires
        0 <= t < j.len() + 4,
    ensures
        wrapped(j).len() == j.len() + 4,
        wrapped(j)[t] == if t < 2 {
            0x24u8
        } else if t < j.len() + 2 {
            j[t - 2]
        } else {
            0x24u8
        },
{
}

/// In the framed hex text of a frame-safe payload, the delimiter text
/// stands only at the very start and the very end.
pub proof fn lemma_delim_positions(j: Seq<u8>, p: int)
    requires
        all_frame_safe(j),
        j.len() >= 1,
        delim_at(framed_hex(j), p),
    ensures
        p == 0 || p == framed_hex(j).len() - 4,
{
    let jj = wrapped(j);
    let f = framed_hex(j);
    lemma_hex_of_len(jj);
    assert(f.len() == 2 * jj.len());
    lemma_hex_of_index(jj, p);
    lemma_hex_of_index(jj, p + 1);
    lemma_hex_of_index(jj, p + 2);
    lemma_hex_of_index(jj, p + 3);
    if p % 2 == 0 {
        let t = p / 2;
        assert(f[p] == hex_digit(jj[t] as int / 16));
        assert(f[p + 1] == hex_digit(jj[t] as int % 16));
        lemma_hex_digit_inv(jj[t] as int / 16);
        lemma_hex_digit_inv(jj[t] as int % 16);
        assert(jj[t] == 0x24);
        assert(f[p + 2] == hex_digit(jj[t + 1] as int / 16));
        assert(f[p + 3] == hex_digit(jj[t + 1] as int % 16));
        lemma_hex_digit_inv(jj[t + 1] as int / 16);
        lemma_hex_digit_inv(jj[t + 1] as int % 16);
        assert(jj[t + 1] == 0x24);
        lemma_wrapped_index(j, t);
        lemma_wrapped_index(j, t + 1);
        if 2 <= t < j.len() + 2 {
            assert(frame_safe_byte(j[t - 2]));
            assert(false);
        }
        if 2 <= t + 1 < j.len() + 2 {
            assert(frame_safe_byte(j[t + 1 - 2]));
            assert(false);
        }
        assert(t == 0 || t == jj.len() - 2);
    } else {
        let t = (p - 1) / 2;
        assert(f[p + 1] == hex_digit(jj[t + 1] as int / 16));
        assert(f[p + 2] == hex_digit(jj[t + 1] as int % 16));
        lemma_hex_digit_inv(jj[t + 1] as int / 16);
        lemma_hex_digit_inv(jj[t + 1] as int % 16);
        assert(jj[t + 1] == 0x42);
        lemma_wrapped_index(j, t + 1);
        if 2 <= t + 1 < j.len() + 2 {
            assert(frame_safe_byte(j[t + 1 - 2]));
        }
        assert(false);
    }
}

// ------------------------------------------------------------------
// The envelope grammar is frame safe.
// ------------------------------------------------------------------

proof fn lemma_safe_concat(a: Seq<u8>, b: Seq<u8>)
    requires
        all_frame_safe(a),
        all_frame_safe(b),
    ensures
        all_frame_safe(a + b),
{
    assert forall|i: int| 0 <= i < (a + b).len() implies frame_safe_byte(#[trigger] (a + b)[i]) by {
        if i < a.len() {
            assert((a + b)[i] == a[i]);
        } else {
            assert((a + b)[i] == b[i - a.len()]);
        }
    }
}

proof fn lemma_safe_dec_of(n: u8)
    ensures
        all_frame_safe(dec_of(n)),
{
}

proof fn lemma_safe_dec_list(s: Seq<u8>)
    ensures
        all_frame_safe(dec_list(s)),
    decreases s.len(),
{
    if s.len() == 0 {
    } else if s.len() == 1 {
        lemma_safe_dec_of(s[0]);
    } else {
        lemma_safe_dec_of(s[0]);
        lemma_safe_dec_list(s.drop_first());
        lemma_safe_concat(dec_of(s[0]), seq![0x2cu8]);
        lemma_safe_concat(dec_of(s[0]) + seq![0x2cu8], dec_list(s.drop_first()));
    }
}

proof fn lemma_safe_value(v: Option<Seq<u8>>)
    ensures
        all_frame_safe(json_value(v)),
{
    match v {
        None => {
            assert(all_frame_safe(null_text()));
        },
        Some(s) => {
            lemma_safe_dec_list(s);
            lemma_safe_concat(seq![0x5bu8], dec_list(s));
            lemma_safe_concat(seq![0x5bu8] + dec_list(s), seq![0x5du8]);
        },
    }
}

/// No byte of an envelope text is the delimiter byte or could fold into
/// the delimiter text under hex expansion.
pub proof fn lemma_envelope_frame_safe(q: Option<Seq<u8>>, m: Option<Seq<u8>>)
    ensures
        all_frame_safe(envelope_json(q, m)),
        envelope_json(q, m).len() >= 1,
{
    lemma_safe_value(q);
    lemma_safe_value(m);
    assert(all_frame_safe(qaul_id_key()));
    assert(all_frame_safe(message_key()));
    lemma_safe_concat(qaul_id_key(), json_value(q));
    lemma_safe_concat(qaul_id_key() + json_value(q), message_key());
    lemma_safe_concat(qaul_id_key() + json_value(q) + message_key(), json_value(m));
    lemma_safe_concat(
        qaul_id_key() + json_value(q) + message_key() + json_value(m),
        seq![0x7du8],
    );
}

// ------------------------------------------------------------------
// Fragmentation.
// ------------------------------------------------------------------

/// The fragments of a hex text: full 40-character cuts, then the remainder.
pub open spec fn chunks_of(f: Seq<u8>) -> Seq<Seq<u8>>
    decreases f.len(),
{
    if f.len() == 0 {
        Seq::empty()
    } else if f.len() <= 40 {
        seq![f]
    } else {
        seq![f.take(40)] + chunks_of(f.skip(40))
    }
}

/// Concatenating the fragments restores the text.
pub open spec fn concat_of(fs: Seq<Seq<u8>>) -> Seq<u8>
    decreases fs.len(),
{
    if fs.len() == 0 {
        Seq::empty()
    } else {
        fs[0] + concat_of(fs.drop_first())
    }
}

pub proof fn lemma_chunks_concat(f: Seq<u8>)
    ensures
        concat_of(chunks_of(f)) =~= f,
    decreases f.len(),
{
    if f.len() == 0 {
    } else if f.len() <= 40 {
        assert(chunks_of(f) == seq![f]);
        assert(seq![f].drop_first() =~= Seq::<Seq<u8>>::empty());
        assert(seq![f][0] == f);
        assert(concat_of(seq![f]) == f + concat_of(Seq::<Seq<u8>>::empty()));
    } else {
        lemma_chunks_concat(f.skip(40));
        assert(chunks_of(f).drop_first() =~= chunks_of(f.skip(40)));
        assert(chunks_of(f)[0] == f.take(40));
        assert(f.take(40) + f.skip(40) =~= f);
    }
}

/// Every fragment is non-empty and at most 40 characters; every fragment
/// but the last is exactly 40.
pub proof fn lemma_chunks_sizes(f: Seq<u8>, i: int)
    requires
        0 <= i < chunks_of(f).len(),
    ensures
        1 <= chunks_of(f)[i].len() <= 40,
        i < chunks_of(f).len() - 1 ==> chunks_of(f)[i].len() == 40,
    decreases f.len(),
{
    if f.len() == 0 {
    } else if f.len() <= 40 {
    } else {
        if i > 0 {
            lemma_chunks_sizes(f.skip(40), i - 1);
        }
    }
}

/// Cut a hex text into fragments of at most [`FRAGMENT_LEN`] characters.
pub fn fragment_hex(f: &Vec<u8>) -> (r: Vec<Vec<u8>>)
    ensures
        r@.len() == chunks_of(f@).len(),
        forall|i: int| 0 <= i < r@.len() ==> #[trigger] r@[i]@ == chunks_of(f@)[i],
{
    let mut out: Vec<Vec<u8>> = Vec::new();
    let mut pos: usize = 0;
    proof {
        assert(f@.take(0) =~= Seq::<u8>::empty());
        assert(chunks_of(f@.take(0)) =~= Seq::<Seq<u8>>::empty());
        assert(f@.skip(0) =~= f@);
        assert(chunks_of(f@) =~= chunks_of(f@.take(0)) + chunks_of(f@.skip(0)));
    }
    while f.len() - pos > 40
        invariant
            pos <= f.len(),
            pos % 40 == 0,
            chunks_of(f@) =~= chunks_of(f@.take(pos as int)) + chunks_of(f@.skip(pos as int)),
            out@.len() == chunks_of(f@.take(pos as int)).len(),
            forall|i: int|
                0 <= i < out@.len() ==> #[trigger] out@[i]@ == chunks_of(f@.take(pos as int))[i],
        decreases f.len() - pos,
    {
        let mut piece: Vec<u8> = Vec::new();
        let mut k: usize = 0;
        while k < 40
            invariant
                k <= 40,
                pos + 40 <= f.len(),
                piece@ =~= f@.subrange(pos as int, pos + k),
            decreases 40 - k,
        {
            piece.push(f[pos + k]);
            k = k + 1;
        }
        proof {
            let old_take = f@.take(pos as int);
            let new_take = f@.take(pos + 40);
            lemma_chunks_snoc(f@, pos as int);
            assert(piece@ =~= f@.skip(pos as int).take(40));
        }
        out.push(piece);
        pos = pos + 40;
    }
    if f.len() - pos > 0 {
        let mut piece: Vec<u8> = Vec::new();
        let mut k: usize = 0;
        let rem = f.len() - pos;
        while k < rem
            invariant
                k <= rem,
                rem == f.len() - pos,
                pos <= f.len(),
                piece@ =~= f@.subrange(pos as int, pos + k),
            decreases rem - k,
        {
            piece.push(f[pos + k]);
            k = k + 1;
        }
        proof {
            assert(piece@ =~= f@.skip(pos as int));
            assert(chunks_of(f@.skip(pos as int)) =~= seq![f@.skip(pos as int)]);
        }
        out.push(piece);
        proof {
            assert(out@.drop_last() =~= out@.subrange(0, out@.len() - 1));
            assert(chunks_of(f@) =~= chunks_of(f@.take(pos as int)) + seq![f@.skip(pos as int)]);
        }
    } else {
        proof {
            assert(f@.skip(pos as int) =~= Seq::<u8>::empty());
            assert(chunks_of(f@) =~= chunks_of(f@.take(pos as int)));
        }
    }
    out
}

// ------------------------------------------------------------------
// Reassembly.
// ------------------------------------------------------------------

/// A fragment that begins with the delimiter text.
pub open spec fn starts_delim(s: Seq<u8>) -> bool {
    delim_at(s, 0)
}

/// A fragment that ends with the delimiter text.
pub open spec fn ends_delim(s: Seq<u8>) -> bool {
    delim_at(s, s.len() - 4)
}

/// A text that ends with the half delimiter `24`.
pub open spec fn ends_half_delim(s: Seq<u8>) -> bool {
    s.len() >= 2 && s[s.len() - 2] == 0x32 && s[s.len() - 1] == 0x34
}

/// One reassembly step for a single sender: the buffer before the fragment
/// and the fragment give the buffer after it and the delivered inner text,
/// if the fragment completed a message.
///
/// * With no buffer, a fragment delimited on both ends is a whole message;
///   one that only starts with the delimiter opens a buffer; anything else
///   is noise and is dropped.
/// * With a buffer, a fragment ending in the delimiter (or the half
///   delimiter `24` completing a buffer that ends in `24`) closes the
///   message; the delimiters are stripped and the inner text is delivered
///   unless a further delimiter remains inside, which would mean two
///   interleaved messages, and the confused buffer is discarded. Any other
///   fragment is appended.
pub open spec fn reasm_step(buf: Option<Seq<u8>>, f: Seq<u8>) -> (Option<Seq<u8>>, Option<Seq<u8>>) {
    match buf {
        None => {
            if starts_delim(f) && ends_delim(f) && f.len() >= 8 {
                let inner = f.subrange(4, f.len() - 4);
                if !contains_delim(inner) {
                    (None, Some(inner))
                } else {
                    (None, None)
                }
            } else if starts_delim(f) {
                (Some(f), None)
            } else {
                (None, None)
            }
        },
        Some(b) => {
            if ends_delim(f) || (ends_half_delim(b) && f == half_delim_text()) {
                let t = b + f;
                if t.len() >= 8 {
                    let inner = t.subrange(4, t.len() - 4);
                    if !contains_delim(inner) {
                        (None, Some(inner))
                    } else {
                        (None, None)
                    }
                } else {
                    (None, None)
                }
            } else {
                (Some(b + f), None)
            }
        },
    }
}

/// Feed a fragment list through the reassembly step; the result is the
/// final buffer and the delivered inner texts in order.
pub open spec fn reasm_run(buf: Option<Seq<u8>>, fs: Seq<Seq<u8>>) -> (
    Option<Seq<u8>>,
    Seq<Seq<u8>>,
)
    decreases fs.len(),
{
    if fs.len() == 0 {
        (buf, Seq::empty())
    } else {
        let first = reasm_step(buf, fs[0]);
        let rest = reasm_run(first.0, fs.drop_first());
        (
            rest.0,
            match first.1 {
                Some(d) => seq![d] + rest.1,
                None => rest.1,
            },
        )
    }
}

/// The framed hex text decomposes into delimiter, payload hex, delimiter.
proof fn lemma_framed_decompose(j: Seq<u8>)
    ensures
        framed_hex(j) =~= delim_text() + hex_of(j) + delim_text(),
        framed_hex(j).len() == 2 * j.len() + 8,
{
    let d = seq![0x24u8, 0x24u8];
    assert(wrapped(j) =~= d + j + d);
    lemma_hex_of_add(d + j, d);
    lemma_hex_of_add(d, j);
    assert(hex_of(d) =~= delim_text()) by {
        assert(d.drop_first() =~= seq![0x24u8]);
        assert(seq![0x24u8].drop_first() =~= Seq::<u8>::empty());
        assert(hex_of(d) == seq![hex_digit(0x24int / 16), hex_digit(0x24int % 16)] + hex_of(
            d.drop_first(),
        ));
        assert(hex_of(seq![0x24u8]) == seq![hex_digit(0x24int / 16), hex_digit(0x24int % 16)] + hex_of(
            Seq::<u8>::empty(),
        ));
    }
    lemma_hex_of_len(wrapped(j));
}

/// Inside a framed message the delimiter appears nowhere but the ends.
proof fn lemma_framed_inner_clean(j: Seq<u8>)
    requires
        all_frame_safe(j),
        j.len() >= 1,
    ensures
        !contains_delim(framed_hex(j).subrange(4, framed_hex(j).len() - 4)),
        framed_hex(j).subrange(4, framed_hex(j).len() - 4) =~= hex_of(j),
{
    let f = framed_hex(j);
    lemma_framed_decompose(j);
    lemma_hex_of_len(j);
    let inner = f.subrange(4, f.len() - 4);
    assert(inner =~= hex_of(j));
    if contains_delim(inner) {
        let p = choose|p: int| delim_at(inner, p);
        assert(delim_at(f, p + 4));
        lemma_delim_positions(j, p + 4);
        assert(false);
    }
}

/// The framed hex text begins and ends with the delimiter text, and its
/// length is even and at least ten characters.
proof fn lemma_framed_ends(j: Seq<u8>)
    requires
        j.len() >= 1,
    ensures
        framed_hex(j).len() == 2 * j.len() + 8,
        starts_delim(framed_hex(j)),
        ends_delim(framed_hex(j)),
        framed_hex(j)[framed_hex(j).len() - 2] == 0x32,
        framed_hex(j)[framed_hex(j).len() - 1] == 0x34,
{
    lemma_framed_decompose(j);
    let f = framed_hex(j);
    let g = delim_text() + hex_of(j) + delim_text();
    lemma_hex_of_len(j);
    assert(g[0] == 0x32 && g[1] == 0x34 && g[2] == 0x32 && g[3] == 0x34);
    assert(g[g.len() - 4] == 0x32 && g[g.len() - 3] == 0x34 && g[g.len() - 2] == 0x32 && g[g.len()
        - 1] == 0x34);
}

/// A cut of a framed message strictly between its ends never closes with
/// the delimiter.
proof fn lemma_framed_prefix_open(j: Seq<u8>, p: int)
    requires
        all_frame_safe(j),
        j.len() >= 1,
        4 < p < framed_hex(j).len(),
    ensures
        !ends_delim(framed_hex(j).take(p)),
{
    let f = framed_hex(j);
    if ends_delim(f.take(p)) {
        assert(delim_at(f, p - 4)) by {
            assert(f.take(p)[p - 4] == f[p - 4]);
            assert(f.take(p)[p - 3] == f[p - 3]);
            assert(f.take(p)[p - 2] == f[p - 2]);
            assert(f.take(p)[p - 1] == f[p - 1]);
        }
        lemma_delim_positions(j, p - 4);
        lemma_framed_decompose(j);
        assert(false);
    }
}

/// Feeding the trailing fragments of a framed message into a buffer that
/// already holds its first `pos` characters delivers exactly the inner
/// text.
proof fn lemma_run_tail(j: Seq<u8>, pos: int)
    requires
        all_frame_safe(j),
        j.len() >= 1,
        40 <= pos < framed_hex(j).len(),
        pos % 40 == 0,
    ensures
        reasm_run(Some(framed_hex(j).take(pos)), chunks_of(framed_hex(j).skip(pos))).0 is None,
        reasm_run(Some(framed_hex(j).take(pos)), chunks_of(framed_hex(j).skip(pos))).1 =~= seq![
            hex_of(j),
        ],
    decreases framed_hex(j).len() - pos,
{
    let f = framed_hex(j);
    let b = f.take(pos);
    let rem = f.skip(pos);
    lemma_framed_decompose(j);
    if rem.len() > 40 {
        let c = rem.take(40);
        lemma_chunks_snoc(f, pos);
        assert(chunks_of(rem) == seq![c] + chunks_of(f.skip(pos + 40)));
        assert(!ends_delim(c)) by {
            if ends_delim(c) {
                assert(delim_at(f, pos + 36)) by {
                    assert(c[36] == f[pos + 36]);
                    assert(c[37] == f[pos + 37]);
                    assert(c[38] == f[pos + 38]);
                    assert(c[39] == f[pos + 39]);
                }
                lemma_delim_positions(j, pos + 36);
                assert(false);
            }
        }
        assert(c != half_delim_text()) by {
            assert(c.len() == 40);
        }
        assert(b + c =~= f.take(pos + 40));
        lemma_run_tail(j, pos + 40);
        let fs = chunks_of(rem);
        assert(fs[0] == c);
        assert(fs.drop_first() =~= chunks_of(f.skip(pos + 40)));
        let first = reasm_step(Some(b), fs[0]);
        assert(first.0 == Some(f.take(pos + 40)));
        assert(first.1 is None);
        let rest = reasm_run(first.0, fs.drop_first());
        assert(rest.0 == reasm_run(Some(f.take(pos + 40)), chunks_of(f.skip(pos + 40))).0);
        assert(rest.1 == reasm_run(Some(f.take(pos + 40)), chunks_of(f.skip(pos + 40))).1);
        assert(reasm_run(Some(b), fs).0 == rest.0);
        assert(reasm_run(Some(b), fs).1 == rest.1);
    } else {
        assert(rem.len() >= 1);
        assert(chunks_of(rem) == seq![rem]);
        assert(seq![rem].drop_first() =~= Seq::<Seq<u8>>::empty());
        let t = b + rem;
        assert(t =~= f);
        lemma_framed_inner_clean(j);
        lemma_framed_ends(j);
        assert(f.len() >= 10);
        if rem.len() >= 4 {
            assert(ends_delim(rem)) by {
                assert(rem[rem.len() - 4] == f[f.len() - 4]);
                assert(rem[rem.len() - 3] == f[f.len() - 3]);
                assert(rem[rem.len() - 2] == f[f.len() - 2]);
                assert(rem[rem.len() - 1] == f[f.len() - 1]);
            }
            assert(reasm_step(Some(b), rem) == (None::<Seq<u8>>, Some(f.subrange(4, f.len() - 4))));
        } else {
            assert(rem.len() % 2 == 0);
            assert(rem.len() == 2);
            assert(!ends_delim(rem));
            assert(rem == half_delim_text()) by {
                assert(rem[0] == f[f.len() - 2]);
                assert(rem[1] == f[f.len() - 1]);
                assert(rem =~= half_delim_text());
            }
            assert(ends_half_delim(b)) by {
                assert(b[b.len() - 2] == f[f.len() - 4]);
                assert(b[b.len() - 1] == f[f.len() - 3]);
            }
            assert(reasm_step(Some(b), rem) == (None::<Seq<u8>>, Some(f.subrange(4, f.len() - 4))));
        }
        assert(f.subrange(4, f.len() - 4) =~= hex_of(j));
        let fs = chunks_of(rem);
        let first = reasm_step(Some(b), fs[0]);
        assert(first.0 is None);
        assert(first.1 == Some(hex_of(j)));
        let rest = reasm_run(first.0, fs.drop_first());
        assert(rest.0 is None);
        assert(rest.1 == Seq::<Seq<u8>>::empty());
        assert(reasm_run(Some(b), fs).0 is None);
        assert(reasm_run(Some(b), fs).1 == seq![hex_of(j)] + rest.1);
        assert(seq![hex_of(j)] + Seq::<Seq<u8>>::empty() =~= seq![hex_of(j)]);
    }
}

/// Feeding all fragments of a framed message into an empty buffer delivers
/// exactly one message: the hex text of the payload.
pub proof fn lemma_reassemble_framed(j: Seq<u8>)
    requires
        all_frame_safe(j),
        j.len() >= 1,
    ensures
        reasm_run(None::<Seq<u8>>, chunks_of(framed_hex(j))).0 is None,
        reasm_run(None::<Seq<u8>>, chunks_of(framed_hex(j))).1 =~= seq![hex_of(j)],
{
    let f = framed_hex(j);
    lemma_framed_decompose(j);
    lemma_framed_inner_clean(j);
    lemma_framed_ends(j);
    if f.len() <= 40 {
        assert(chunks_of(f) == seq![f]);
        assert(seq![f].drop_first() =~= Seq::<Seq<u8>>::empty());
        assert(f.len() >= 10);
        let fs = chunks_of(f);
        let first = reasm_step(None::<Seq<u8>>, fs[0]);
        assert(first.0 is None);
        assert(f.subrange(4, f.len() - 4) =~= hex_of(j));
        assert(first.1 == Some(hex_of(j)));
        let rest = reasm_run(first.0, fs.drop_first());
        assert(rest.0 is None);
        assert(rest.1 == Seq::<Seq<u8>>::empty());
        assert(reasm_run(None::<Seq<u8>>, fs).0 is None);
        assert(reasm_run(None::<Seq<u8>>, fs).1 == seq![hex_of(j)] + rest.1);
        assert(seq![hex_of(j)] + Seq::<Seq<u8>>::empty() =~= seq![hex_of(j)]);
    } else {
        let c = f.take(40);
        assert(chunks_of(f) == seq![c] + chunks_of(f.skip(40)));
        assert(starts_delim(c)) by {
            assert(c[0] == f[0]);
            assert(c[1] == f[1]);
            assert(c[2] == f[2]);
            assert(c[3] == f[3]);
        }
        lemma_framed_prefix_open(j, 40);
        assert(!ends_delim(c));
        lemma_run_tail(j, 40);
        let fs = chunks_of(f);
        assert(fs[0] == c);
        assert(fs.drop_first() =~= chunks_of(f.skip(40)));
        let first = reasm_step(None::<Seq<u8>>, fs[0]);
        assert(first.0 == Some(f.take(40)));
        assert(first.1 is None);
        let rest = reasm_run(first.0, fs.drop_first());
        assert(rest.0 == reasm_run(Some(f.take(40)), chunks_of(f.skip(40))).0);
        assert(rest.1 == reasm_run(Some(f.take(40)), chunks_of(f.skip(40))).1);
        assert(reasm_run(None::<Seq<u8>>, fs).0 == rest.0);
        assert(reasm_run(None::<Seq<u8>>, fs).1 == rest.1);
    }
}

/// Splitting one 40-character cut off the front commutes with taking a
/// longer prefix.
proof fn lemma_chunks_snoc(f: Seq<u8>, pos: int)
    requires
        0 <= pos,
        pos % 40 == 0,
        pos + 40 <= f.len(),
    ensures
        chunks_of(f.take(pos + 40)) =~= chunks_of(f.take(pos)) + seq![
            f.skip(pos).take(40),
        ],
        chunks_of(f.skip(pos)) =~= seq![f.skip(pos).take(40)] + chunks_of(f.skip(pos + 40)),
    decreases pos,
{
    if pos == 0 {
        assert(f.take(0) =~= Seq::<u8>::empty());
        assert(chunks_of(f.take(0)) =~= Seq::<Seq<u8>>::empty());
        assert(f.skip(0) =~= f);
        if f.len() == 40 {
            assert(chunks_of(f.take(40)) =~= seq![f.take(40)]);
            assert(f.take(40) =~= f.skip(0).take(40));
            assert(f.skip(40) =~= Seq::<u8>::empty());
        } else {
            assert(f.len() > 40);
            let p = f.take(40);
            assert(chunks_of(p) =~= seq![p]);
            assert(f.skip(0).take(40) =~= p);
            assert(chunks_of(f) =~= seq![f.take(40)] + chunks_of(f.skip(40)));
        }
    } else {
        let g = f.skip(40);
        lemma_chunks_snoc(g, pos - 40);
        assert(f.take(pos + 40).len() > 40);
        assert(chunks_of(f.take(pos + 40)) =~= seq![f.take(pos + 40).take(40)] + chunks_of(
            f.take(pos + 40).skip(40),
        ));
        assert(f.take(pos + 40).take(40) =~= f.take(40));
        assert(f.take(pos + 40).skip(40) =~= g.take(pos - 40 + 40));
        assert(f.take(pos).len() > 40 || f.take(pos).len() == 40);
        if pos == 40 {
            assert(f.take(pos) =~= f.take(40));
            assert(chunks_of(f.take(pos)) =~= seq![f.take(40)]);
            assert(g.take(0) =~= Seq::<u8>::empty());
            assert(chunks_of(g.take(0)) =~= Seq::<Seq<u8>>::empty());
        } else {
            assert(chunks_of(f.take(pos)) =~= seq![f.take(pos).take(40)] + chunks_of(
                f.take(pos).skip(40),
            ));
            assert(f.take(pos).take(40) =~= f.take(40));
            assert(f.take(pos).skip(40) =~= g.take(pos - 40));
        }
        assert(g.skip(pos - 40) =~= f.skip(pos));
        assert(g.skip(pos - 40 + 40) =~= f.skip(pos + 40));
        assert(f.skip(pos).take(40) =~= g.skip(pos - 40).take(40));
    }
}


// ------------------------------------------------------------------
// Executable reassembly, keyed by the sender's hardware address.
// ------------------------------------------------------------------

/// Copy the bytes of `src` onto the end of `dst`.
pub fn append_bytes(dst: &mut Vec<u8>, src: &Vec<u8>)
    ensures
        final(dst)@ =~= old(dst)@ + src@,
{
    let mut i: usize = 0;
    while i < src.len()
        invariant
            i <= src.len(),
            dst@ =~= old(dst)@ + src@.take(i as int),
        decreases src.len() - i,
    {
        dst.push(src[i]);
        i = i + 1;
    }
    proof {
        assert(src@.take(src@.len() as int) =~= src@);
    }
}

/// Copy the range `[a, b)` of a byte vector.
pub fn copy_range(v: &Vec<u8>, a: usize, b: usize) -> (r: Vec<u8>)
    requires
        a <= b <= v.len(),
    ensures
        r@ =~= v@.subrange(a as int, b as int),
{
    let mut out: Vec<u8> = Vec::new();
    let mut i: usize = a;
    while i < b
        invariant
            a <= i <= b <= v.len(),
            out@ =~= v@.subrange(a as int, i as int),
        decreases b - i,
    {
        out.push(v[i]);
        i = i + 1;
    }
    out
}

/// Whether the fragment begins with the delimiter text.
fn has_delim_prefix(v: &Vec<u8>) -> (r: bool)
    ensures
        r == starts_delim(v@),
{
    v.len() >= 4 && v[0] == 0x32 && v[1] == 0x34 && v[2] == 0x32 && v[3] == 0x34
}

/// Whether the fragment ends with the delimiter text.
fn has_delim_suffix(v: &Vec<u8>) -> (r: bool)
    ensures
        r == ends_delim(v@),
{
    v.len() >= 4 && v[v.len() - 4] == 0x32 && v[v.len() - 3] == 0x34 && v[v.len() - 2] == 0x32
        && v[v.len() - 1] == 0x34
}

/// Whether the text ends with the half delimiter `24`.
fn has_half_suffix(v: &Vec<u8>) -> (r: bool)
    ensures
        r == ends_half_delim(v@),
{
    v.len() >= 2 && v[v.len() - 2] == 0x32 && v[v.len() - 1] == 0x34
}

/// Whether the fragment is exactly the half delimiter `24`.
fn is_half_delim(v: &Vec<u8>) -> (r: bool)
    ensures
        r == (v@ == half_delim_text()),
{
    let r = v.len() == 2 && v[0] == 0x32 && v[1] == 0x34;
    proof {
        if r {
            assert(v@ =~= half_delim_text());
        } else {
            if v@ == half_delim_text() {
                assert(v@.len() == 2);
                assert(v@[0] == 0x32 && v@[1] == 0x34);
            }
        }
    }
    r
}

/// Whether the delimiter text occurs anywhere in `v`.
fn scan_contains_delim(v: &Vec<u8>) -> (r: bool)
    ensures
        r == contains_delim(v@),
{
    if v.len() < 4 {
        proof {
            if contains_delim(v@) {
                let p = choose|p: int| delim_at(v@, p);
                assert(false);
            }
        }
        return false;
    }
    let mut p: usize = 0;
    while p <= v.len() - 4
        invariant
            v.len() >= 4,
            p <= v.len(),
            forall|q: int| 0 <= q < p ==> !delim_at(v@, q),
        decreases v.len() - p,
    {
        if v[p] == 0x32 && v[p + 1] == 0x34 && v[p + 2] == 0x32 && v[p + 3] == 0x34 {
            proof {
                assert(delim_at(v@, p as int));
            }
            return true;
        }
        p = p + 1;
    }
    proof {
        if contains_delim(v@) {
            let q = choose|q: int| delim_at(v@, q);
            assert(q + 4 <= v@.len());
            assert(q < p);
            assert(false);
        }
    }
    false
}

/// The buffer stored for a sender: the first entry with its address.
pub open spec fn find_buf(entries: Seq<(u64, Vec<u8>)>, mac: u64) -> Option<Seq<u8>>
    decreases entries.len(),
{
    if entries.len() == 0 {
        None
    } else if entries[0].0 == mac {
        Some(entries[0].1@)
    } else {
        find_buf(entries.drop_first(), mac)
    }
}

proof fn lemma_find_absent(entries: Seq<(u64, Vec<u8>)>, mac: u64)
    requires
        forall|i: int| 0 <= i < entries.len() ==> (#[trigger] entries[i]).0 != mac,
    ensures
        find_buf(entries, mac) is None,
    decreases entries.len(),
{
    if entries.len() > 0 {
        lemma_find_absent(entries.drop_first(), mac);
    }
}

proof fn lemma_find_at(entries: Seq<(u64, Vec<u8>)>, i: int, mac: u64)
    requires
        0 <= i < entries.len(),
        entries[i].0 == mac,
        forall|q: int| 0 <= q < i ==> (#[trigger] entries[q]).0 != mac,
    ensures
        find_buf(entries, mac) == Some(entries[i].1@),
    decreases i,
{
    if i > 0 {
        lemma_find_at(entries.drop_first(), i - 1, mac);
    }
}

proof fn lemma_find_remove_other(entries: Seq<(u64, Vec<u8>)>, i: int, k: u64)
    requires
        0 <= i < entries.len(),
        entries[i].0 != k,
    ensures
        find_buf(entries.remove(i), k) == find_buf(entries, k),
    decreases i,
{
    if i == 0 {
        assert(entries.remove(0) =~= entries.drop_first());
    } else {
        assert(entries.remove(i)[0] == entries[0]);
        assert(entries.remove(i).drop_first() =~= entries.drop_first().remove(i - 1));
        lemma_find_remove_other(entries.drop_first(), i - 1, k);
    }
}

proof fn lemma_find_push(entries: Seq<(u64, Vec<u8>)>, mac: u64, v: Vec<u8>, k: u64)
    ensures
        find_buf(entries.push((mac, v)), k) == if find_buf(entries, k) is Some {
            find_buf(entries, k)
        } else if k == mac {
            Some(v@)
        } else {
            None::<Seq<u8>>
        },
    decreases entries.len(),
{
    if entries.len() == 0 {
        assert(entries.push((mac, v))[0] == (mac, v));
        assert(entries.push((mac, v)).drop_first() =~= Seq::<(u64, Vec<u8>)>::empty());
    } else {
        assert(entries.push((mac, v))[0] == entries[0]);
        assert(entries.push((mac, v)).drop_first() =~= entries.drop_first().push((mac, v)));
        lemma_find_push(entries.drop_first(), mac, v, k);
    }
}

/// The per-sender reassembly buffers: one partial hex text per hardware
/// address, held between a start delimiter and its matching end.
pub struct ReassemblyMap {
    entries: Vec<(u64, Vec<u8>)>,
}

impl ReassemblyMap {
    /// Each address holds at most one buffer.
    pub closed spec fn wf(self) -> bool {
        forall|i: int, k: int|
            0 <= i < k < self.entries@.len() ==> (#[trigger] self.entries@[i]).0 != (
            #[trigger] self.entries@[k]).0
    }

    /// The buffer held for an address.
    pub closed spec fn buffer_for(self, mac: u64) -> Option<Seq<u8>> {
        find_buf(self.entries@, mac)
    }

    /// An empty map: no sender has a partial message.
    pub fn new() -> (r: Self)
        ensures
            r.wf(),
            forall|m: u64| r.buffer_for(m) is None,
    {
        ReassemblyMap { entries: Vec::new() }
    }

    /// Take one fragment from a sender through the reassembly step: the
    /// sender's buffer advances by [`reasm_step`], every other buffer is
    /// untouched, and the completed inner text, if any, is returned.
    pub fn on_fragment(&mut self, mac: u64, frag: &Vec<u8>) -> (r: Option<Vec<u8>>)
        requires
            old(self).wf(),
        ensures
            final(self).wf(),
            final(self).buffer_for(mac) == reasm_step(old(self).buffer_for(mac), frag@).0,
            match r {
                Some(d) => reasm_step(old(self).buffer_for(mac), frag@).1 == Some(d@),
                None => reasm_step(old(self).buffer_for(mac), frag@).1 is None,
            },
            forall|k: u64| k != mac ==> final(self).buffer_for(k) == old(self).buffer_for(k),
    {
        let n = self.entries.len();
        let mut i: usize = 0;
        while i < n
            invariant_except_break
                i <= n,
                n == self.entries@.len(),
                forall|q: int| 0 <= q < i ==> (#[trigger] self.entries@[q]).0 != mac,
            ensures
                i <= n,
                n == self.entries@.len(),
                forall|q: int| 0 <= q < i ==> (#[trigger] self.entries@[q]).0 != mac,
                i < n ==> self.entries@[i as int].0 == mac,
            decreases n - i,
        {
            if self.entries[i].0 == mac {
                break;
            }
            i = i + 1;
        }
        let found: Option<usize> = if i < n {
            Some(i)
        } else {
            None
        };
        match found {
            None => {
                proof {
                    lemma_find_absent(self.entries@, mac);
                }
                let sd = has_delim_prefix(frag);
                let ed = has_delim_suffix(frag);
                if sd && ed && frag.len() >= 8 {
                    let inner = copy_range(frag, 4, frag.len() - 4);
                    if !scan_contains_delim(&inner) {
                        Some(inner)
                    } else {
                        None
                    }
                } else if sd {
                    let b = copy_range(frag, 0, frag.len());
                    proof {
                        assert(b@ =~= frag@);
                        assert forall|k: u64| true implies find_buf(
                            self.entries@.push((mac, b)),
                            k,
                        ) == if find_buf(self.entries@, k) is Some {
                            find_buf(self.entries@, k)
                        } else if k == mac {
                            Some(b@)
                        } else {
                            None::<Seq<u8>>
                        } by {
                            lemma_find_push(self.entries@, mac, b, k);
                        }
                    }
                    let ghost old_entries = self.entries@;
                    self.entries.push((mac, b));
                    proof {
                        assert forall|p: int, q: int|
                            0 <= p < q < self.entries@.len() implies (
                        #[trigger] self.entries@[p]).0 != (#[trigger] self.entries@[q]).0 by {
                            if q == self.entries@.len() - 1 {
                                assert(self.entries@[q].0 == mac);
                                assert(old_entries[p].0 != mac);
                            }
                        }
                    }
                    None
                } else {
                    None
                }
            },
            Some(idx) => {
                let ghost old_entries = self.entries@;
                proof {
                    lemma_find_at(old_entries, idx as int, mac);
                }
                let entry = self.entries.remove(idx);
                let mut b = entry.1;
                proof {
                    assert(old_entries[idx as int].1@ == b@);
                    assert forall|k: u64| k != mac implies find_buf(self.entries@, k) == find_buf(
                        old_entries,
                        k,
                    ) by {
                        lemma_find_remove_other(old_entries, idx as int, k);
                    }
                    assert forall|q: int|
                        0 <= q < self.entries@.len() implies (#[trigger] self.entries@[q]).0
                        != mac by {
                        if q < idx {
                            assert(self.entries@[q] == old_entries[q]);
                        } else {
                            assert(self.entries@[q] == old_entries[q + 1]);
                        }
                    }
                    lemma_find_absent(self.entries@, mac);
                }
                let ghost removed = self.entries@;
                let close = has_delim_suffix(frag) || (has_half_suffix(&b) && is_half_delim(frag));
                append_bytes(&mut b, frag);
                if close {
                    if b.len() >= 8 {
                        let inner = copy_range(&b, 4, b.len() - 4);
                        if !scan_contains_delim(&inner) {
                            Some(inner)
                        } else {
                            None
                        }
                    } else {
                        None
                    }
                } else {
                    proof {
                        assert forall|k: u64| true implies find_buf(removed.push((mac, b)), k)
                            == if find_buf(removed, k) is Some {
                            find_buf(removed, k)
                        } else if k == mac {
                            Some(b@)
                        } else {
                            None::<Seq<u8>>
                        } by {
                            lemma_find_push(removed, mac, b, k);
                        }
                    }
                    self.entries.push((mac, b));
                    proof {
                        assert forall|p: int, q: int|
                            0 <= p < q < self.entries@.len() implies (
                        #[trigger] self.entries@[p]).0 != (#[trigger] self.entries@[q]).0 by {
                            if q == self.entries@.len() - 1 {
                                assert(self.entries@[q].0 == mac);
                                assert(removed[p].0 != mac);
                            }
                        }
                    }
                    None
                }
            },
        }
    }
}

// ------------------------------------------------------------------
// Framing a payload for sending, and decoding a delivered inner text.
// ------------------------------------------------------------------

/// Build the framed hex text of an envelope: delimiters around the JSON,
/// all hex expanded.
pub fn frame_payload(qaul_id: &Option<Vec<u8>>, message: &Option<Vec<u8>>) -> (r: Vec<u8>)
    ensures
        r@ == framed_hex(envelope_json(opt_bytes_view(qaul_id), opt_bytes_view(message))),
{
    let j = encode_envelope(qaul_id, message);
    let mut w: Vec<u8> = Vec::new();
    w.push(0x24);
    w.push(0x24);
    append_bytes(&mut w, &j);
    w.push(0x24);
    w.push(0x24);
    proof {
        assert(w@ =~= wrapped(j@));
    }
    bytes_to_hex(&w)
}

/// Decode a delivered inner text: fold the hex back to bytes and parse the
/// envelope. `None` when either layer is malformed.
pub fn decode_delivery(inner: &Vec<u8>) -> (r: Option<(Option<Vec<u8>>, Option<Vec<u8>>)>)
    ensures
        match hex_decoded(inner@) {
            None => r is None,
            Some(bs) => match parse_envelope(bs) {
                None => r is None,
                Some(p) => match r {
                    Some(x) => opt_bytes_view(&x.0) == p.0 && opt_bytes_view(&x.1) == p.1,
                    None => false,
                },
            },
        },
{
    match hex_to_bytes(inner) {
        None => None,
        Some(bs) => decode_envelope(&bs),
    }
}

/// Round-trip framing: for any field pair, framing the envelope, cutting
/// it into fragments, reassembling them and decoding the delivery returns
/// the original fields. The reassembly of the fragment list delivers
/// exactly one inner text, that text folds back to the envelope, and the
/// envelope parses to the pair.
pub proof fn lemma_round_trip_framing(q: Option<Seq<u8>>, m: Option<Seq<u8>>)
    ensures
        reasm_run(None::<Seq<u8>>, chunks_of(framed_hex(envelope_json(q, m)))).0 is None,
        reasm_run(None::<Seq<u8>>, chunks_of(framed_hex(envelope_json(q, m)))).1 =~= seq![
            hex_of(envelope_json(q, m)),
        ],
        hex_decoded(hex_of(envelope_json(q, m))) == Some(envelope_json(q, m)),
        parse_envelope(envelope_json(q, m)) == Some((q, m)),
{
    lemma_envelope_frame_safe(q, m);
    lemma_reassemble_framed(envelope_json(q, m));
    lemma_hex_round_trip(envelope_json(q, m));
    lemma_envelope_round_trip(q, m);
}

} // verus!
