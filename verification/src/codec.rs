//! The on-disk record format: a self-describing binary encoding of cycle
//! descriptions, and of the export container holding (identifier,
//! description) pairs. Encoders and decoders are verified to invert each
//! other: decoding an encoding yields the value encoded.

use vstd::prelude::*;

use crate::date::Date;
use crate::ident::Id;
use crate::description::{Description, DescriptionV, Interval};
use vstd::bytes::{
    lemma_auto_spec_u64_to_from_le_bytes, spec_u64_from_le_bytes, spec_u64_to_le_bytes,
    u64_from_le_bytes, u64_to_le_bytes,
};
use vstd::slice::{slice_subrange, slice_to_vec};
use vstd::utf8::{
    decode_utf8, encode_utf8, encode_utf8_decode_utf8, encode_utf8_valid_utf8, valid_utf8,
};

verus! {

// ------------------------------------------------------------------
// Unsigned 64-bit numbers: eight little-endian bytes.
// ------------------------------------------------------------------
/// Encoding of a 64-bit number: eight little-endian bytes.
pub open spec fn enc_u64(x: u64) -> Seq<u8> {
    spec_u64_to_le_bytes(x)
}

/// Reads a 64-bit number at position `i`, returning it with the position
/// that follows it.
pub open spec fn dec_u64(b: Seq<u8>, i: int) -> Option<(u64, int)> {
    if 0 <= i && i + 8 <= b.len() {
        Some((spec_u64_from_le_bytes(b.subrange(i, i + 8)), i + 8))
    } else {
        None
    }
}

pub proof fn lemma_enc_u64_len(x: u64)
    ensures
        enc_u64(x).len() == 8,
{
    lemma_auto_spec_u64_to_from_le_bytes();
}

/// A number read back from its own encoding, wherever it is embedded.
pub proof fn lemma_dec_u64_embed(b: Seq<u8>, i: int, x: u64)
    requires
        0 <= i,
        i + 8 <= b.len(),
        b.subrange(i, i + 8) == enc_u64(x),
    ensures
        dec_u64(b, i) == Some((x, i + 8)),
{
    lemma_auto_spec_u64_to_from_le_bytes();
}

// ------------------------------------------------------------------
// Signed 64-bit numbers, carried through their two's-complement bits.
// ------------------------------------------------------------------
/// Encoding of a signed 64-bit number: the eight little-endian bytes of its
/// two's-complement image.
pub open spec fn enc_i64(x: i64) -> Seq<u8> {
    enc_u64(x as u64)
}

/// Reads a signed 64-bit number at position `i`.
pub open spec fn dec_i64(b: Seq<u8>, i: int) -> Option<(i64, int)> {
    match dec_u64(b, i) {
        Some((x, j)) => Some(((x as i64), j)),
        None => None,
    }
}

pub proof fn lemma_i64_bits_round_trip(x: i64)
    ensures
        ((x as u64) as i64) == x,
{
    assert(((x as u64) as i64) == x) by (bit_vector);
}

pub proof fn lemma_dec_i64_embed(b: Seq<u8>, i: int, x: i64)
    requires
        0 <= i,
        i + 8 <= b.len(),
        b.subrange(i, i + 8) == enc_i64(x),
    ensures
        dec_i64(b, i) == Some((x, i + 8)),
{
    lemma_dec_u64_embed(b, i, x as u64);
    lemma_i64_bits_round_trip(x);
}

// ------------------------------------------------------------------
// Single tag bytes.
// ------------------------------------------------------------------
/// Reads one byte at position `i`.
pub open spec fn dec_byte(b: Seq<u8>, i: int) -> Option<(u8, int)> {
    if 0 <= i < b.len() {
        Some((b[i], i + 1))
    } else {
        None
    }
}

// ------------------------------------------------------------------
// Text: a byte count, then that many bytes of UTF-8.
// ------------------------------------------------------------------
/// True when the UTF-8 image of the text fits the length field. Every
/// string a machine can hold satisfies this; only unbounded mathematical
/// sequences can fail it.
pub open spec fn str_encodable(s: Seq<char>) -> bool {
    encode_utf8(s).len() <= u64::MAX
}

/// Encoding of text: the length in bytes of its UTF-8 image, then the
/// image itself.
pub open spec fn enc_str(s: Seq<char>) -> Seq<u8> {
    enc_u64(encode_utf8(s).len() as u64) + encode_utf8(s)
}

/// Reads text at position `i`: a byte count, then that many bytes, which
/// must be valid UTF-8.
pub open spec fn dec_str(b: Seq<u8>, i: int) -> Option<(Seq<char>, int)> {
    match dec_u64(b, i) {
        Some((n, j)) => {
            if j + n <= b.len() && valid_utf8(b.subrange(j, j + n)) {
                Some((decode_utf8(b.subrange(j, j + n)), j + n))
            } else {
                None
            }
        },
        None => None,
    }
}

pub proof fn lemma_enc_str_len(s: Seq<char>)
    ensures
        enc_str(s).len() == 8 + encode_utf8(s).len(),
{
    lemma_enc_u64_len(encode_utf8(s).len() as u64);
}

/// Text read back from its own encoding, wherever it is embedded.
pub proof fn lemma_dec_str_embed(b: Seq<u8>, i: int, s: Seq<char>)
    requires
        str_encodable(s),
        0 <= i,
        i + enc_str(s).len() <= b.len(),
        b.subrange(i, i + enc_str(s).len()) == enc_str(s),
    ensures
        dec_str(b, i) == Some((s, i + enc_str(s).len())),
{
    let u = encode_utf8(s);
    let n: u64 = u.len() as u64;
    let len = enc_str(s).len();
    lemma_enc_u64_len(n);
    assert(b.subrange(i, i + 8) =~= enc_u64(n)) by {
        assert forall|k: int| 0 <= k < 8 implies b.subrange(i, i + 8)[k] == enc_u64(n)[k] by {
            assert(b.subrange(i, i + len)[k] == enc_str(s)[k]);
        }
    }
    lemma_dec_u64_embed(b, i, n);
    let j = i + 8;
    assert(b.subrange(j, j + n) =~= u) by {
        assert forall|k: int| 0 <= k < u.len() implies b.subrange(j, j + n)[k] == u[k] by {
            assert(b.subrange(i, i + len)[8 + k] == enc_str(s)[8 + k]);
        }
    }
    encode_utf8_valid_utf8(s);
    encode_utf8_decode_utf8(s);
}

// ------------------------------------------------------------------
// Optional text: a presence byte, then the text when present.
// ------------------------------------------------------------------
/// Encoding of optional text: 0 when absent; 1 and the text when present.
pub open spec fn enc_opt_str(o: Option<Seq<char>>) -> Seq<u8> {
    match o {
        None => seq![0u8],
        Some(s) => seq![1u8] + enc_str(s),
    }
}

/// Reads optional text at position `i`.
pub open spec fn dec_opt_str(b: Seq<u8>, i: int) -> Option<(Option<Seq<char>>, int)> {
    match dec_byte(b, i) {
        Some((t, j)) => {
            if t == 0 {
                Some((None, j))
            } else if t == 1 {
                match dec_str(b, j) {
                    Some((s, k)) => Some((Some(s), k)),
                    None => None,
                }
            } else {
                None
            }
        },
        None => None,
    }
}

/// A window of an embedded encoding is the matching window of the encoding.
proof fn lemma_sub_window(b: Seq<u8>, i: int, w: Seq<u8>, lo: int, hi: int)
    requires
        0 <= i,
        i + w.len() <= b.len(),
        b.subrange(i, i + w.len()) == w,
        0 <= lo <= hi <= w.len(),
    ensures
        b.subrange(i + lo, i + hi) == w.subrange(lo, hi),
{
    assert(b.subrange(i + lo, i + hi) =~= w.subrange(lo, hi)) by {
        assert forall|k: int| 0 <= k < hi - lo implies b.subrange(i + lo, i + hi)[k] == w.subrange(
            lo,
            hi,
        )[k] by {
            assert(b.subrange(i, i + w.len())[lo + k] == w[lo + k]);
        }
    }
}

/// Optional text read back from its own encoding.
pub proof fn lemma_dec_opt_str_embed(b: Seq<u8>, i: int, o: Option<Seq<char>>)
    requires
        o matches Some(s) ==> str_encodable(s),
        0 <= i,
        i + enc_opt_str(o).len() <= b.len(),
        b.subrange(i, i + enc_opt_str(o).len()) == enc_opt_str(o),
    ensures
        dec_opt_str(b, i) == Some((o, i + enc_opt_str(o).len())),
{
    let w = enc_opt_str(o);
    assert(b[i] == b.subrange(i, i + w.len())[0]);
    match o {
        None => {},
        Some(s) => {
            lemma_sub_window(b, i, w, 1, w.len() as int);
            assert(w.subrange(1, w.len() as int) =~= enc_str(s));
            lemma_dec_str_embed(b, i + 1, s);
        },
    }
}

// ------------------------------------------------------------------
// Intervals: one tag byte.
// ------------------------------------------------------------------
/// The tag byte standing for an interval.
pub open spec fn interval_tag(interval: Interval) -> u8 {
    match interval {
        Interval::Weekly => 0,
        Interval::Monthly => 1,
        Interval::Yearly => 2,
    }
}

/// Encoding of an interval: its tag byte.
pub open spec fn enc_interval(interval: Interval) -> Seq<u8> {
    seq![interval_tag(interval)]
}

/// Reads an interval at position `i`.
pub open spec fn dec_interval(b: Seq<u8>, i: int) -> Option<(Interval, int)> {
    match dec_byte(b, i) {
        Some((t, j)) => {
            if t == 0 {
                Some((Interval::Weekly, j))
            } else if t == 1 {
                Some((Interval::Monthly, j))
            } else if t == 2 {
                Some((Interval::Yearly, j))
            } else {
                None
            }
        },
        None => None,
    }
}

/// An interval read back from its own encoding.
pub proof fn lemma_dec_interval_embed(b: Seq<u8>, i: int, interval: Interval)
    requires
        0 <= i,
        i + 1 <= b.len(),
        b.subrange(i, i + 1) == enc_interval(interval),
    ensures
        dec_interval(b, i) == Some((interval, i + 1)),
{
    assert(b[i] == b.subrange(i, i + 1)[0]);
}

// ------------------------------------------------------------------
// Tag lists: a count, then each tag's text in display order.
// ------------------------------------------------------------------
/// Encoding of the texts of a tag list, one after the other.
pub open spec fn enc_str_list(ts: Seq<Seq<char>>) -> Seq<u8>
    decreases ts.len(),
{
    if ts.len() == 0 {
        Seq::empty()
    } else {
        enc_str(ts[0]) + enc_str_list(ts.drop_first())
    }
}

/// Encoding of a tag list: the count, then the texts.
pub open spec fn enc_tags(ts: Seq<Seq<char>>) -> Seq<u8> {
    enc_u64(ts.len() as u64) + enc_str_list(ts)
}

/// True when a tag list fits its count and length fields.
pub open spec fn str_list_encodable(ts: Seq<Seq<char>>) -> bool {
    &&& ts.len() <= u64::MAX
    &&& forall|k: int| 0 <= k < ts.len() ==> str_encodable(#[trigger] ts[k])
}

/// Reads `n` texts one after the other, starting at position `i`.
pub open spec fn dec_str_list(b: Seq<u8>, i: int, n: nat) -> Option<(Seq<Seq<char>>, int)>
    decreases n,
{
    if n == 0 {
        Some((Seq::empty(), i))
    } else {
        match dec_str(b, i) {
            Some((s, j)) => match dec_str_list(b, j, (n - 1) as nat) {
                Some((ss, k)) => Some((seq![s] + ss, k)),
                None => None,
            },
            None => None,
        }
    }
}

/// Reads a tag list at position `i`: the count, then that many texts.
pub open spec fn dec_tags(b: Seq<u8>, i: int) -> Option<(Seq<Seq<char>>, int)> {
    match dec_u64(b, i) {
        Some((n, j)) => dec_str_list(b, j, n as nat),
        None => None,
    }
}

/// Texts read back from their own encodings, one after the other.
pub proof fn lemma_dec_str_list_embed(b: Seq<u8>, i: int, ts: Seq<Seq<char>>)
    requires
        str_list_encodable(ts),
        0 <= i,
        i + enc_str_list(ts).len() <= b.len(),
        b.subrange(i, i + enc_str_list(ts).len()) == enc_str_list(ts),
    ensures
        dec_str_list(b, i, ts.len()) == Some((ts, i + enc_str_list(ts).len())),
    decreases ts.len(),
{
    if ts.len() == 0 {
        assert(ts =~= Seq::<Seq<char>>::empty());
    } else {
        let w = enc_str_list(ts);
        let s0 = ts[0];
        let l0 = enc_str(s0).len() as int;
        let rest = ts.drop_first();
        lemma_sub_window(b, i, w, 0, l0);
        assert(w.subrange(0, l0) =~= enc_str(s0));
        lemma_dec_str_embed(b, i, s0);
        lemma_sub_window(b, i, w, l0, w.len() as int);
        assert(w.subrange(l0, w.len() as int) =~= enc_str_list(rest));
        assert(str_list_encodable(rest)) by {
            assert(forall|k: int|
                0 <= k < rest.len() ==> #[trigger] rest[k] == ts[k + 1] && str_encodable(ts[k + 1]));
        }
        lemma_dec_str_list_embed(b, i + l0, rest);
        assert(seq![s0] + rest =~= ts);
    }
}

/// A tag list read back from its own encoding.
pub proof fn lemma_dec_tags_embed(b: Seq<u8>, i: int, ts: Seq<Seq<char>>)
    requires
        str_list_encodable(ts),
        0 <= i,
        i + enc_tags(ts).len() <= b.len(),
        b.subrange(i, i + enc_tags(ts).len()) == enc_tags(ts),
    ensures
        dec_tags(b, i) == Some((ts, i + enc_tags(ts).len())),
{
    let w = enc_tags(ts);
    let n: u64 = ts.len() as u64;
    lemma_enc_u64_len(n);
    lemma_sub_window(b, i, w, 0, 8);
    assert(w.subrange(0, 8) =~= enc_u64(n));
    lemma_dec_u64_embed(b, i, n);
    lemma_sub_window(b, i, w, 8, w.len() as int);
    assert(w.subrange(8, w.len() as int) =~= enc_str_list(ts));
    lemma_dec_str_list_embed(b, i + 8, ts);
}

// ------------------------------------------------------------------
// Whole descriptions: the fields one after the other.
// ------------------------------------------------------------------
/// True when every text of the description fits its length field; holds of
/// every description a machine can build.
pub open spec fn desc_encodable(d: DescriptionV) -> bool {
    &&& str_encodable(d.label)
    &&& (d.description matches Some(s) ==> str_encodable(s))
    &&& (d.color matches Some(s) ==> str_encodable(s))
    &&& str_list_encodable(d.tags)
}

/// Encoding of a description: label, optional description and color, tags,
/// start day number, interval, interval multiplier, in that order.
pub open spec fn enc_desc(d: DescriptionV) -> Seq<u8> {
    enc_str(d.label) + enc_opt_str(d.description) + enc_opt_str(d.color) + enc_tags(d.tags)
        + enc_i64(d.start) + enc_interval(d.interval) + enc_i64(d.interval_multiplier)
}

/// Reads a description at position `i`.
pub open spec fn dec_desc(b: Seq<u8>, i: int) -> Option<(DescriptionV, int)> {
    match dec_str(b, i) {
        Some((label, i1)) => match dec_opt_str(b, i1) {
            Some((description, i2)) => match dec_opt_str(b, i2) {
                Some((color, i3)) => match dec_tags(b, i3) {
                    Some((tags, i4)) => match dec_i64(b, i4) {
                        Some((start, i5)) => match dec_interval(b, i5) {
                            Some((interval, i6)) => match dec_i64(b, i6) {
                                Some((interval_multiplier, i7)) => Some(
                                    (
                                        DescriptionV {
                                            label,
                                            description,
                                            color,
                                            tags,
                                            start,
                                            interval,
                                            interval_multiplier,
                                        },
                                        i7,
                                    ),
                                ),
                                None => None,
                            },
                            None => None,
                        },
                        None => None,
                    },
                    None => None,
                },
                None => None,
            },
            None => None,
        },
        None => None,
    }
}

/// Reads a description that fills the whole buffer.
pub open spec fn dec_desc_full(b: Seq<u8>) -> Option<DescriptionV> {
    match dec_desc(b, 0) {
        Some((d, j)) => if j == b.len() {
            Some(d)
        } else {
            None
        },
        None => None,
    }
}

/// A description read back from its own encoding, wherever it is embedded.
pub proof fn lemma_dec_desc_embed(b: Seq<u8>, i: int, d: DescriptionV)
    requires
        desc_encodable(d),
        0 <= i,
        i + enc_desc(d).len() <= b.len(),
        b.subrange(i, i + enc_desc(d).len()) == enc_desc(d),
    ensures
        dec_desc(b, i) == Some((d, i + enc_desc(d).len())),
{
    let w = enc_desc(d);
    let o1 = enc_str(d.label).len() as int;
    let o2 = o1 + enc_opt_str(d.description).len();
    let o3 = o2 + enc_opt_str(d.color).len();
    let o4 = o3 + enc_tags(d.tags).len();
    let o5 = o4 + enc_i64(d.start).len();
    let o6 = o5 + enc_interval(d.interval).len();
    let o7 = o6 + enc_i64(d.interval_multiplier).len();
    lemma_enc_u64_len(d.start as u64);
    lemma_enc_u64_len(d.interval_multiplier as u64);
    lemma_sub_window(b, i, w, 0, o1);
    assert(w.subrange(0, o1) =~= enc_str(d.label));
    lemma_dec_str_embed(b, i, d.label);
    lemma_sub_window(b, i, w, o1, o2);
    assert(w.subrange(o1, o2) =~= enc_opt_str(d.description));
    lemma_dec_opt_str_embed(b, i + o1, d.description);
    lemma_sub_window(b, i, w, o2, o3);
    assert(w.subrange(o2, o3) =~= enc_opt_str(d.color));
    lemma_dec_opt_str_embed(b, i + o2, d.color);
    lemma_sub_window(b, i, w, o3, o4);
    assert(w.subrange(o3, o4) =~= enc_tags(d.tags));
    lemma_dec_tags_embed(b, i + o3, d.tags);
    lemma_sub_window(b, i, w, o4, o5);
    assert(w.subrange(o4, o5) =~= enc_i64(d.start));
    lemma_dec_i64_embed(b, i + o4, d.start);
    lemma_sub_window(b, i, w, o5, o6);
    assert(w.subrange(o5, o6) =~= enc_interval(d.interval));
    lemma_dec_interval_embed(b, i + o5, d.interval);
    lemma_sub_window(b, i, w, o6, o7);
    assert(w.subrange(o6, o7) =~= enc_i64(d.interval_multiplier));
    lemma_dec_i64_embed(b, i + o6, d.interval_multiplier);
    assert(dec_desc(b, i) matches Some(p) && p.0 =~= d && p.1 == i + o7);
}

/// Round trip: decoding the encoding of a description gives it back whole.
pub proof fn lemma_enc_dec_desc(d: DescriptionV)
    requires
        desc_encodable(d),
    ensures
        dec_desc_full(enc_desc(d)) == Some(d),
{
    let b = enc_desc(d);
    assert(b.subrange(0, b.len() as int) =~= b);
    lemma_dec_desc_embed(b, 0, d);
}

/// Relies on std's `String::from_utf8`: builds a string from bytes exactly
/// when they are valid UTF-8, and the string's characters are the decoding
/// of the bytes.
#[verifier::external_body]
fn string_from_utf8(v: Vec<u8>) -> (r: Option<String>)
    ensures
        r matches Some(s) ==> valid_utf8(v@) && s@ == decode_utf8(v@),
        r is None ==> !valid_utf8(v@),
{
    String::from_utf8(v).ok()
}

// ------------------------------------------------------------------
// Executable encoders and decoders for the pieces above.
// ------------------------------------------------------------------
/// Appends the encoding of a 64-bit number.
pub fn encode_u64_into(out: &mut Vec<u8>, x: u64)
    ensures
        final(out)@ == old(out)@ + enc_u64(x),
{
    let mut b = u64_to_le_bytes(x);
    out.append(&mut b);
}

/// Appends the encoding of a signed 64-bit number.
pub fn encode_i64_into(out: &mut Vec<u8>, x: i64)
    ensures
        final(out)@ == old(out)@ + enc_i64(x),
{
    encode_u64_into(out, x as u64);
}

/// Appends the encoding of a string.
pub fn encode_str_into(out: &mut Vec<u8>, s: &String)
    ensures
        final(out)@ == old(out)@ + enc_str(s@),
        str_encodable(s@),
{
    let bs: &[u8] = s.as_str().as_bytes();
    encode_u64_into(out, bs.len() as u64);
    out.extend_from_slice(bs);
    assert(out@ =~= old(out)@ + enc_str(s@));
}

/// Reads a 64-bit number; mirrors `dec_u64` exactly.
pub fn decode_u64_at(bytes: &Vec<u8>, pos: usize) -> (r: Option<(u64, usize)>)
    ensures
        r matches Some(p) ==> dec_u64(bytes@, pos as int) == Some((p.0, p.1 as int)),
        r is None ==> dec_u64(bytes@, pos as int) is None,
{
    if pos <= bytes.len() && bytes.len() - pos >= 8 {
        let s: &[u8] = slice_subrange(bytes.as_slice(), pos, pos + 8);
        let x: u64 = u64_from_le_bytes(s);
        Some((x, pos + 8))
    } else {
        None
    }
}

/// Reads a signed 64-bit number; mirrors `dec_i64` exactly.
pub fn decode_i64_at(bytes: &Vec<u8>, pos: usize) -> (r: Option<(i64, usize)>)
    ensures
        r matches Some(p) ==> dec_i64(bytes@, pos as int) == Some((p.0, p.1 as int)),
        r is None ==> dec_i64(bytes@, pos as int) is None,
{
    match decode_u64_at(bytes, pos) {
        Some((x, j)) => Some((x as i64, j)),
        None => None,
    }
}

/// Reads one byte; mirrors `dec_byte` exactly.
pub fn decode_byte_at(bytes: &Vec<u8>, pos: usize) -> (r: Option<(u8, usize)>)
    ensures
        r matches Some(p) ==> dec_byte(bytes@, pos as int) == Some((p.0, p.1 as int)),
        r is None ==> dec_byte(bytes@, pos as int) is None,
{
    if pos < bytes.len() {
        Some((bytes[pos], pos + 1))
    } else {
        None
    }
}

/// Appends the encoding of optional text.
pub fn encode_opt_str_into(out: &mut Vec<u8>, o: &Option<String>)
    ensures
        final(out)@ == old(out)@ + enc_opt_str(match *o {
            Some(s) => Some(s@),
            None => None,
        }),
        (o matches Some(s) ==> str_encodable(s@)),
{
    match o {
        None => {
            out.push(0u8);
            assert(out@ =~= old(out)@ + seq![0u8]);
        },
        Some(s) => {
            out.push(1u8);
            encode_str_into(out, s);
            assert(out@ =~= old(out)@ + (seq![1u8] + enc_str(s@)));
        },
    }
}

/// Appends the encoding of an interval.
pub fn encode_interval_into(out: &mut Vec<u8>, interval: Interval)
    ensures
        final(out)@ == old(out)@ + enc_interval(interval),
{
    let tag: u8 = match interval {
        Interval::Weekly => 0,
        Interval::Monthly => 1,
        Interval::Yearly => 2,
    };
    out.push(tag);
    assert(out@ =~= old(out)@ + enc_interval(interval));
}

/// Appends the encodings of the texts of `tags` from index `from` on.
fn encode_str_list_from(out: &mut Vec<u8>, tags: &Vec<String>, from: usize)
    requires
        from <= tags@.len(),
    ensures
        final(out)@ == old(out)@ + enc_str_list(
            tags.deep_view().subrange(from as int, tags@.len() as int),
        ),
        forall|k: int| from <= k < tags@.len() ==> str_encodable(#[trigger] tags.deep_view()[k]),
    decreases tags@.len() - from,
{
    let ghost suffix = tags.deep_view().subrange(from as int, tags@.len() as int);
    if from < tags.len() {
        encode_str_into(out, &tags[from]);
        encode_str_list_from(out, tags, from + 1);
        proof {
            assert(suffix[0] == tags.deep_view()[from as int]);
            assert(suffix.drop_first() =~= tags.deep_view().subrange(
                from + 1 as int,
                tags@.len() as int,
            ));
            assert(out@ =~= old(out)@ + enc_str_list(suffix));
        }
    } else {
        proof {
            assert(suffix =~= Seq::<Seq<char>>::empty());
            assert(out@ =~= old(out)@ + enc_str_list(suffix));
        }
    }
}

/// The encoding of a description, as one buffer.
pub fn encode_description(d: &Description) -> (b: Vec<u8>)
    ensures
        b@ == enc_desc(d@),
        desc_encodable(d@),
{
    let mut out: Vec<u8> = Vec::new();
    encode_str_into(&mut out, &d.label);
    encode_opt_str_into(&mut out, &d.description);
    encode_opt_str_into(&mut out, &d.color);
    encode_u64_into(&mut out, d.tags.len() as u64);
    encode_str_list_from(&mut out, &d.tags, 0);
    proof {
        assert(d.tags.deep_view().subrange(0, d.tags@.len() as int) =~= d@.tags);
    }
    encode_i64_into(&mut out, d.start.days);
    encode_interval_into(&mut out, d.interval);
    encode_i64_into(&mut out, d.interval_multiplier);
    proof {
        assert(out@ =~= enc_desc(d@));
    }
    out
}

/// Reads a string; mirrors `dec_str` exactly.
pub fn decode_str_at(bytes: &Vec<u8>, pos: usize) -> (r: Option<(String, usize)>)
    ensures
        r matches Some(p) ==> dec_str(bytes@, pos as int) == Some((p.0@, p.1 as int)),
        r is None ==> dec_str(bytes@, pos as int) is None,
{
    match decode_u64_at(bytes, pos) {
        Some((n, j)) => {
            if n <= (bytes.len() - j) as u64 {
                let end: usize = j + n as usize;
                let sub: &[u8] = slice_subrange(bytes.as_slice(), j, end);
                let v: Vec<u8> = slice_to_vec(sub);
                match string_from_utf8(v) {
                    Some(s) => Some((s, end)),
                    None => None,
                }
            } else {
                None
            }
        },
        None => None,
    }
}

/// Reads optional text; mirrors `dec_opt_str` exactly.
pub fn decode_opt_str_at(bytes: &Vec<u8>, pos: usize) -> (r: Option<(Option<String>, usize)>)
    ensures
        r matches Some(p) ==> dec_opt_str(bytes@, pos as int) == Some(
            (
                match p.0 {
                    Some(s) => Some(s@),
                    None => None,
                },
                p.1 as int,
            ),
        ),
        r is None ==> dec_opt_str(bytes@, pos as int) is None,
{
    match decode_byte_at(bytes, pos) {
        Some((tag, j)) => {
            if tag == 0 {
                Some((None, j))
            } else if tag == 1 {
                match decode_str_at(bytes, j) {
                    Some((s, k)) => Some((Some(s), k)),
                    None => None,
                }
            } else {
                None
            }
        },
        None => None,
    }
}

/// Reads an interval; mirrors `dec_interval` exactly.
pub fn decode_interval_at(bytes: &Vec<u8>, pos: usize) -> (r: Option<(Interval, usize)>)
    ensures
        r matches Some(p) ==> dec_interval(bytes@, pos as int) == Some((p.0, p.1 as int)),
        r is None ==> dec_interval(bytes@, pos as int) is None,
{
    match decode_byte_at(bytes, pos) {
        Some((tag, j)) => {
            if tag == 0 {
                Some((Interval::Weekly, j))
            } else if tag == 1 {
                Some((Interval::Monthly, j))
            } else if tag == 2 {
                Some((Interval::Yearly, j))
            } else {
                None
            }
        },
        None => None,
    }
}

/// Reads `n` texts one after the other; mirrors `dec_str_list` exactly.
fn decode_str_list_at(bytes: &Vec<u8>, pos: usize, n: u64) -> (r: Option<(Vec<String>, usize)>)
    ensures
        r matches Some(p) ==> dec_str_list(bytes@, pos as int, n as nat) == Some(
            (p.0.deep_view(), p.1 as int),
        ),
        r is None ==> dec_str_list(bytes@, pos as int, n as nat) is None,
    decreases n,
{
    if n == 0 {
        let empty: Vec<String> = Vec::new();
        proof {
            assert(empty.deep_view() =~= Seq::<Seq<char>>::empty());
        }
        Some((empty, pos))
    } else {
        match decode_str_at(bytes, pos) {
            Some((s, j)) => match decode_str_list_at(bytes, j, n - 1) {
                Some((tail_vec, k)) => {
                    let ghost tail = tail_vec.deep_view();
                    let mut with_head = tail_vec;
                    with_head.insert(0, s);
                    proof {
                        assert(with_head.deep_view() =~= seq![s@] + tail);
                    }
                    Some((with_head, k))
                },
                None => None,
            },
            None => None,
        }
    }
}

/// Reads a description; mirrors `dec_desc` exactly.
pub fn decode_description_at(bytes: &Vec<u8>, pos: usize) -> (r: Option<(Description, usize)>)
    ensures
        r matches Some(p) ==> dec_desc(bytes@, pos as int) == Some((p.0@, p.1 as int)),
        r is None ==> dec_desc(bytes@, pos as int) is None,
{
    let label_read = match decode_str_at(bytes, pos) {
        Some(p) => p,
        None => {
            return None;
        },
    };
    let description_read = match decode_opt_str_at(bytes, label_read.1) {
        Some(p) => p,
        None => {
            return None;
        },
    };
    let color_read = match decode_opt_str_at(bytes, description_read.1) {
        Some(p) => p,
        None => {
            return None;
        },
    };
    let count_read = match decode_u64_at(bytes, color_read.1) {
        Some(p) => p,
        None => {
            return None;
        },
    };
    let tags_read = match decode_str_list_at(bytes, count_read.1, count_read.0) {
        Some(p) => p,
        None => {
            return None;
        },
    };
    let start_read = match decode_i64_at(bytes, tags_read.1) {
        Some(p) => p,
        None => {
            return None;
        },
    };
    let interval_read = match decode_interval_at(bytes, start_read.1) {
        Some(p) => p,
        None => {
            return None;
        },
    };
    let multiplier_read = match decode_i64_at(bytes, interval_read.1) {
        Some(p) => p,
        None => {
            return None;
        },
    };
    let d = Description {
        label: label_read.0,
        description: description_read.0,
        color: color_read.0,
        tags: tags_read.0,
        start: Date { days: start_read.0 },
        interval: interval_read.0,
        interval_multiplier: multiplier_read.0,
    };
    proof {
        assert(dec_desc(bytes@, pos as int) matches Some(p) && p.0 =~= d@ && p.1
            == multiplier_read.1 as int);
    }
    Some((d, multiplier_read.1))
}

// ------------------------------------------------------------------
// Export containers: a count, then (identifier, description) pairs.
// ------------------------------------------------------------------
/// Encoding of one exported pair: the sixteen identifier bytes raw, then
/// the description.
pub open spec fn enc_pair(p: (Seq<u8>, DescriptionV)) -> Seq<u8> {
    p.0 + enc_desc(p.1)
}

/// Encoding of the pairs of a container, one after the other.
pub open spec fn enc_pair_list(ps: Seq<(Seq<u8>, DescriptionV)>) -> Seq<u8>
    decreases ps.len(),
{
    if ps.len() == 0 {
        Seq::empty()
    } else {
        enc_pair(ps[0]) + enc_pair_list(ps.drop_first())
    }
}

/// Encoding of an export container: the number of pairs, then the pairs in
/// order.
pub open spec fn enc_container(ps: Seq<(Seq<u8>, DescriptionV)>) -> Seq<u8> {
    enc_u64(ps.len() as u64) + enc_pair_list(ps)
}

/// True when a pair can be read back: a sixteen-byte identifier and an
/// encodable description.
pub open spec fn pair_encodable(p: (Seq<u8>, DescriptionV)) -> bool {
    &&& p.0.len() == 16
    &&& desc_encodable(p.1)
}

/// True when a whole container can be read back.
pub open spec fn container_encodable(ps: Seq<(Seq<u8>, DescriptionV)>) -> bool {
    &&& ps.len() <= u64::MAX
    &&& forall|k: int| 0 <= k < ps.len() ==> pair_encodable(#[trigger] ps[k])
}

/// Reads one pair at position `i`: sixteen identifier bytes, then a
/// description.
pub open spec fn dec_pair(b: Seq<u8>, i: int) -> Option<((Seq<u8>, DescriptionV), int)> {
    if 0 <= i && i + 16 <= b.len() {
        match dec_desc(b, i + 16) {
            Some((d, j)) => Some(((b.subrange(i, i + 16), d), j)),
            None => None,
        }
    } else {
        None
    }
}

/// Reads `n` pairs one after the other, starting at position `i`.
pub open spec fn dec_pair_list(b: Seq<u8>, i: int, n: nat) -> Option<
    (Seq<(Seq<u8>, DescriptionV)>, int),
>
    decreases n,
{
    if n == 0 {
        Some((Seq::empty(), i))
    } else {
        match dec_pair(b, i) {
            Some((p, j)) => match dec_pair_list(b, j, (n - 1) as nat) {
                Some((ps, k)) => Some((seq![p] + ps, k)),
                None => None,
            },
            None => None,
        }
    }
}

/// Reads a whole container: the count, then that many pairs, filling the
/// buffer exactly.
pub open spec fn dec_container(b: Seq<u8>) -> Option<Seq<(Seq<u8>, DescriptionV)>> {
    match dec_u64(b, 0) {
        Some((n, j)) => match dec_pair_list(b, j, n as nat) {
            Some((ps, k)) => if k == b.len() {
                Some(ps)
            } else {
                None
            },
            None => None,
        },
        None => None,
    }
}

/// A pair read back from its own encoding, wherever it is embedded.
pub proof fn lemma_dec_pair_embed(b: Seq<u8>, i: int, p: (Seq<u8>, DescriptionV))
    requires
        pair_encodable(p),
        0 <= i,
        i + enc_pair(p).len() <= b.len(),
        b.subrange(i, i + enc_pair(p).len()) == enc_pair(p),
    ensures
        dec_pair(b, i) == Some((p, i + enc_pair(p).len())),
{
    let w = enc_pair(p);
    lemma_sub_window(b, i, w, 0, 16);
    assert(w.subrange(0, 16) =~= p.0);
    lemma_sub_window(b, i, w, 16, w.len() as int);
    assert(w.subrange(16, w.len() as int) =~= enc_desc(p.1));
    lemma_dec_desc_embed(b, i + 16, p.1);
}

/// Pairs read back from their own encodings, one after the other.
pub proof fn lemma_dec_pair_list_embed(b: Seq<u8>, i: int, ps: Seq<(Seq<u8>, DescriptionV)>)
    requires
        container_encodable(ps),
        0 <= i,
        i + enc_pair_list(ps).len() <= b.len(),
        b.subrange(i, i + enc_pair_list(ps).len()) == enc_pair_list(ps),
    ensures
        dec_pair_list(b, i, ps.len()) == Some((ps, i + enc_pair_list(ps).len())),
    decreases ps.len(),
{
    if ps.len() == 0 {
        assert(ps =~= Seq::<(Seq<u8>, DescriptionV)>::empty());
    } else {
        let w = enc_pair_list(ps);
        let p0 = ps[0];
        let l0 = enc_pair(p0).len() as int;
        let rest = ps.drop_first();
        lemma_sub_window(b, i, w, 0, l0);
        assert(w.subrange(0, l0) =~= enc_pair(p0));
        lemma_dec_pair_embed(b, i, p0);
        lemma_sub_window(b, i, w, l0, w.len() as int);
        assert(w.subrange(l0, w.len() as int) =~= enc_pair_list(rest));
        assert(container_encodable(rest)) by {
            assert(forall|k: int|
                0 <= k < rest.len() ==> #[trigger] rest[k] == ps[k + 1] && pair_encodable(
                    ps[k + 1],
                ));
        }
        lemma_dec_pair_list_embed(b, i + l0, rest);
        assert(seq![p0] + rest =~= ps);
    }
}

/// Round trip: decoding the encoding of a container gives back the same
/// pairs in the same order.
pub proof fn lemma_enc_dec_container(ps: Seq<(Seq<u8>, DescriptionV)>)
    requires
        container_encodable(ps),
    ensures
        dec_container(enc_container(ps)) == Some(ps),
{
    let b = enc_container(ps);
    let n: u64 = ps.len() as u64;
    lemma_enc_u64_len(n);
    assert(b.subrange(0, 8) =~= enc_u64(n));
    lemma_dec_u64_embed(b, 0, n);
    assert(b.subrange(8, b.len() as int) =~= enc_pair_list(ps));
    lemma_dec_pair_list_embed(b, 8, ps);
}

/// The pairs of entries, each as its identifier bytes and description value.
pub open spec fn pairs_view(v: Seq<(Id, Description)>) -> Seq<(Seq<u8>, DescriptionV)> {
    Seq::new(v.len(), |i: int| (v[i].0@, v[i].1@))
}

/// Appends the encoding of one pair.
fn encode_pair_into(out: &mut Vec<u8>, id: &Id, d: &Description)
    ensures
        final(out)@ == old(out)@ + enc_pair((id@, d@)),
        desc_encodable(d@),
{
    out.extend_from_slice(id.as_bytes().as_slice());
    let body = encode_description(d);
    out.extend_from_slice(body.as_slice());
    assert(out@ =~= old(out)@ + enc_pair((id@, d@)));
}

/// Appends the encodings of the pairs of `entries` from index `from` on.
fn encode_pair_list_from(out: &mut Vec<u8>, entries: &Vec<(Id, Description)>, from: usize)
    requires
        from <= entries@.len(),
    ensures
        final(out)@ == old(out)@ + enc_pair_list(
            pairs_view(entries@).subrange(from as int, entries@.len() as int),
        ),
        forall|k: int|
            from <= k < entries@.len() ==> desc_encodable(#[trigger] pairs_view(entries@)[k].1),
    decreases entries@.len() - from,
{
    let ghost suffix = pairs_view(entries@).subrange(from as int, entries@.len() as int);
    if from < entries.len() {
        let p = &entries[from];
        encode_pair_into(out, &p.0, &p.1);
        encode_pair_list_from(out, entries, from + 1);
        proof {
            assert(suffix[0] == pairs_view(entries@)[from as int]);
            assert(suffix.drop_first() =~= pairs_view(entries@).subrange(
                from + 1 as int,
                entries@.len() as int,
            ));
            assert(out@ =~= old(out)@ + enc_pair_list(suffix));
        }
    } else {
        proof {
            assert(suffix =~= Seq::<(Seq<u8>, DescriptionV)>::empty());
            assert(out@ =~= old(out)@ + enc_pair_list(suffix));
        }
    }
}

/// The encoding of a whole container of entries.
pub fn encode_container(entries: &Vec<(Id, Description)>) -> (b: Vec<u8>)
    ensures
        b@ == enc_container(pairs_view(entries@)),
        forall|k: int|
            0 <= k < entries@.len() ==> desc_encodable(#[trigger] pairs_view(entries@)[k].1),
{
    let mut out: Vec<u8> = Vec::new();
    encode_u64_into(&mut out, entries.len() as u64);
    encode_pair_list_from(&mut out, entries, 0);
    proof {
        assert(pairs_view(entries@).subrange(0, entries@.len() as int) =~= pairs_view(entries@));
        assert(out@ =~= enc_container(pairs_view(entries@)));
    }
    out
}

/// Reads one pair; mirrors `dec_pair` exactly.
fn decode_pair_at(bytes: &Vec<u8>, pos: usize) -> (r: Option<((Id, Description), usize)>)
    ensures
        r matches Some(p) ==> dec_pair(bytes@, pos as int) == Some(
            ((p.0.0@, p.0.1@), p.1 as int),
        ) && p.0.0@.len() == 16,
        r is None ==> dec_pair(bytes@, pos as int) is None,
{
    if pos <= bytes.len() && bytes.len() - pos >= 16 {
        let key_slice: &[u8] = slice_subrange(bytes.as_slice(), pos, pos + 16);
        let key: Vec<u8> = slice_to_vec(key_slice);
        let id = match Id::from_bytes(key) {
            Some(id) => id,
            None => {
                return None;
            },
        };
        match decode_description_at(bytes, pos + 16) {
            Some((d, j)) => Some(((id, d), j)),
            None => None,
        }
    } else {
        None
    }
}

/// Reads `n` pairs one after the other; mirrors `dec_pair_list` exactly.
fn decode_pair_list_at(bytes: &Vec<u8>, pos: usize, n: u64) -> (r: Option<
    (Vec<(Id, Description)>, usize),
>)
    ensures
        r matches Some(p) ==> dec_pair_list(bytes@, pos as int, n as nat) == Some(
            (pairs_view(p.0@), p.1 as int),
        ),
        r matches Some(p) ==> (forall|i: int|
            0 <= i < p.0@.len() ==> (#[trigger] p.0@[i]).0@.len() == 16),
        r is None ==> dec_pair_list(bytes@, pos as int, n as nat) is None,
    decreases n,
{
    if n == 0 {
        let empty: Vec<(Id, Description)> = Vec::new();
        proof {
            assert(pairs_view(empty@) =~= Seq::<(Seq<u8>, DescriptionV)>::empty());
        }
        Some((empty, pos))
    } else {
        match decode_pair_at(bytes, pos) {
            Some((p, j)) => match decode_pair_list_at(bytes, j, n - 1) {
                Some((tail_vec, k)) => {
                    let ghost tail = pairs_view(tail_vec@);
                    let ghost head = (p.0@, p.1@);
                    let mut with_head = tail_vec;
                    with_head.insert(0, p);
                    proof {
                        assert(pairs_view(with_head@) =~= seq![head] + tail);
                    }
                    Some((with_head, k))
                },
                None => None,
            },
            None => None,
        }
    }
}

/// Reads a whole container; mirrors `dec_container` exactly.
pub fn decode_container(bytes: &Vec<u8>) -> (r: Option<Vec<(Id, Description)>>)
    ensures
        r matches Some(v) ==> dec_container(bytes@) == Some(pairs_view(v@)),
        r matches Some(v) ==> (forall|i: int|
            0 <= i < v@.len() ==> (#[trigger] v@[i]).0@.len() == 16),
        r is None ==> dec_container(bytes@) is None,
{
    match decode_u64_at(bytes, 0) {
        Some((n, j)) => match decode_pair_list_at(bytes, j, n) {
            Some((v, k)) => {
                if k == bytes.len() {
                    Some(v)
                } else {
                    None
                }
            },
            None => None,
        },
        None => None,
    }
}

/// Reads a description that must fill the whole buffer; mirrors
/// `dec_desc_full` exactly.
pub fn decode_description_full(bytes: &Vec<u8>) -> (r: Option<Description>)
    ensures
        r matches Some(d) ==> dec_desc_full(bytes@) == Some(d@),
        r is None ==> dec_desc_full(bytes@) is None,
{
    match decode_description_at(bytes, 0) {
        Some((d, j)) => {
            if j == bytes.len() {
                Some(d)
            } else {
                None
            }
        },
        None => None,
    }
}

} // verus!
