//! The dual serializer: one depth-first walk of a document emits canonical
//! compact JSON bytes to a single-escaped buffer and the same content
//! re-escaped once more (without the outermost quotes) to a double-escaped
//! buffer, while recording for every reachable path the exact byte range of
//! that path's serialized value in each buffer.

use vstd::prelude::*;

use crate::node::{
    clone_bytes, dec_str, items_view, join_path, kvs_view, lemma_items_view, lemma_kvs_view,
    node_view, plain_byte, plain_bytes, push_dec, val_wf, JsonNode, JsonVal,
};

verus! {

/// The lower-case hexadecimal digit of a value below 16.
pub open spec fn hex_digit(x: u8) -> u8 {
    if x < 10 {
        (0x30 + x) as u8
    } else {
        (0x57 + x) as u8
    }
}

/// JSON string escaping of one byte: quote and backslash are
/// backslash-escaped, control bytes take their short form when they have
/// one and the `\u00xy` form when not, and every other byte passes through.
pub open spec fn esc_byte(b: u8) -> Seq<u8> {
    if b == 0x22 {
        seq![0x5cu8, 0x22u8]
    } else if b == 0x5c {
        seq![0x5cu8, 0x5cu8]
    } else if b == 0x08 {
        seq![0x5cu8, 0x62u8]
    } else if b == 0x09 {
        seq![0x5cu8, 0x74u8]
    } else if b == 0x0a {
        seq![0x5cu8, 0x6eu8]
    } else if b == 0x0c {
        seq![0x5cu8, 0x66u8]
    } else if b == 0x0d {
        seq![0x5cu8, 0x72u8]
    } else if b < 0x20 {
        seq![0x5cu8, 0x75u8, 0x30u8, 0x30u8, hex_digit(b / 16), hex_digit(b % 16)]
    } else {
        seq![b]
    }
}

/// JSON string escaping of a byte string.
pub open spec fn esc(s: Seq<u8>) -> Seq<u8>
    decreases s.len(),
{
    if s.len() == 0 {
        Seq::empty()
    } else {
        esc_byte(s[0]) + esc(s.drop_first())
    }
}

/// Escaping distributes over appending one byte.
pub proof fn lemma_esc_push(s: Seq<u8>, b: u8)
    ensures
        esc(s.push(b)) == esc(s) + esc_byte(b),
    decreases s.len(),
{
    if s.len() == 0 {
        assert(s.push(b).drop_first() =~= Seq::<u8>::empty());
        assert(s.push(b)[0] == b);
        assert(esc(Seq::<u8>::empty()) == Seq::<u8>::empty());
        assert(esc(s.push(b)) == esc_byte(b) + esc(Seq::<u8>::empty()));
        assert(esc(s.push(b)) =~= esc(s) + esc_byte(b));
    } else {
        assert(s.push(b).drop_first() =~= s.drop_first().push(b));
        lemma_esc_push(s.drop_first(), b);
        assert(s.push(b)[0] == s[0]);
        assert(esc(s.push(b)) == esc_byte(s[0]) + (esc(s.drop_first()) + esc_byte(b)));
        assert(esc(s.push(b)) =~= esc(s) + esc_byte(b));
    }
}

/// Escaping is a homomorphism over concatenation.
pub proof fn lemma_esc_concat(a: Seq<u8>, b: Seq<u8>)
    ensures
        esc(a + b) == esc(a) + esc(b),
    decreases a.len(),
{
    if a.len() == 0 {
        assert(a + b =~= b);
        assert(esc(a + b) =~= esc(a) + esc(b));
    } else {
        assert((a + b).drop_first() =~= a.drop_first() + b);
        lemma_esc_concat(a.drop_first(), b);
        assert(esc(a + b) =~= esc(a) + esc(b));
    }
}

/// A string of plain bytes escapes to itself.
pub proof fn lemma_esc_plain(s: Seq<u8>)
    requires
        plain_bytes(s),
    ensures
        esc(s) == s,
    decreases s.len(),
{
    if s.len() > 0 {
        assert(plain_byte(s[0]));
        assert(plain_bytes(s.drop_first()));
        lemma_esc_plain(s.drop_first());
        assert(esc(s) =~= s);
    }
}

/// Value of a hexadecimal digit byte (either case).
pub open spec fn unhex(b: u8) -> u8 {
    if 0x30 <= b <= 0x39 {
        (b - 0x30) as u8
    } else if 0x61 <= b <= 0x66 {
        (b - 0x57) as u8
    } else if 0x41 <= b <= 0x46 {
        (b - 0x37) as u8
    } else {
        0
    }
}

/// The byte a short escape stands for; an unknown escape yields the byte
/// itself, as tolerant readers do.
pub open spec fn unesc_short(b: u8) -> u8 {
    if b == 0x62 {
        0x08
    } else if b == 0x74 {
        0x09
    } else if b == 0x6e {
        0x0a
    } else if b == 0x66 {
        0x0c
    } else if b == 0x72 {
        0x0d
    } else {
        b
    }
}

/// Reading a JSON string body: each backslash escape is decoded, every
/// other byte passes through.
pub open spec fn unesc(s: Seq<u8>) -> Seq<u8>
    decreases s.len(),
{
    if s.len() == 0 {
        Seq::empty()
    } else if s[0] == 0x5c && s.len() >= 2 {
        if s[1] == 0x75 && s.len() >= 6 {
            seq![((16 * unhex(s[4]) + unhex(s[5])) as u8)] + unesc(s.skip(6))
        } else {
            seq![unesc_short(s[1])] + unesc(s.skip(2))
        }
    } else {
        seq![s[0]] + unesc(s.skip(1))
    }
}

/// Unescaping undoes escaping. With the `serialize` contract this is the
/// round-trip law of the double-escaped ranges: a double-escaped range
/// slices to the escaping of the single-escaped range, so reading it back
/// as a JSON string body yields the single-escaped range again — the two
/// encodings of a path denote one value.
pub proof fn lemma_unescape_escape(s: Seq<u8>)
    ensures
        unesc(esc(s)) == s,
    decreases s.len(),
{
    if s.len() > 0 {
        let b = s[0];
        let rest = s.drop_first();
        lemma_unescape_escape(rest);
        let e = esc(s);
        assert(e == esc_byte(b) + esc(rest));
        if b == 0x22 || b == 0x5c || b == 0x08 || b == 0x09 || b == 0x0a || b == 0x0c || b
            == 0x0d {
            assert(e[0] == 0x5c && e[1] == unesc_short_inverse(b));
            assert(e[1] != 0x75);
            assert(unesc_short(e[1]) == b);
            assert(e.skip(2) =~= esc(rest));
            assert(unesc(e) =~= seq![b] + rest);
        } else if b < 0x20 {
            assert(e[0] == 0x5c && e[1] == 0x75 && e[2] == 0x30 && e[3] == 0x30);
            assert(e[4] == hex_digit(b / 16) && e[5] == hex_digit(b % 16));
            assert(unhex(hex_digit(b / 16)) == b / 16);
            assert(unhex(hex_digit(b % 16)) == b % 16);
            assert((16 * unhex(e[4]) + unhex(e[5])) as u8 == b);
            assert(e.skip(6) =~= esc(rest));
            assert(unesc(e) =~= seq![b] + rest);
        } else {
            assert(e[0] == b && b != 0x5c);
            assert(e.skip(1) =~= esc(rest));
            assert(unesc(e) =~= seq![b] + rest);
        }
        assert(seq![b] + rest =~= s);
    }
}

/// The escape byte that stands for a byte with a short form.
pub open spec fn unesc_short_inverse(b: u8) -> u8 {
    if b == 0x08 {
        0x62
    } else if b == 0x09 {
        0x74
    } else if b == 0x0a {
        0x6e
    } else if b == 0x0c {
        0x66
    } else if b == 0x0d {
        0x72
    } else {
        b
    }
}

/// Canonical compact JSON serialization of a value.
pub open spec fn ser(v: JsonVal) -> Seq<u8>
    decreases v,
{
    match v {
        JsonVal::Null => seq![0x6eu8, 0x75u8, 0x6cu8, 0x6cu8],
        JsonVal::Bool(b) => if b {
            seq![0x74u8, 0x72u8, 0x75u8, 0x65u8]
        } else {
            seq![0x66u8, 0x61u8, 0x6cu8, 0x73u8, 0x65u8]
        },
        JsonVal::Number(t) => t,
        JsonVal::String(s) => seq![0x22u8] + esc(s) + seq![0x22u8],
        JsonVal::Array(items) => seq![0x5bu8] + ser_items(items) + seq![0x5du8],
        JsonVal::Object(kvs) => seq![0x7bu8] + ser_members(kvs) + seq![0x7du8],
    }
}

/// Comma-separated serialization of array elements.
pub open spec fn ser_items(items: Seq<JsonVal>) -> Seq<u8>
    decreases items,
{
    if items.len() == 0 {
        Seq::empty()
    } else if items.len() == 1 {
        ser(items[0])
    } else {
        ser_items(items.drop_last()) + seq![0x2cu8] + ser(items.last())
    }
}

/// Serialization of one object member.
pub open spec fn ser_member(kv: (Seq<u8>, JsonVal)) -> Seq<u8>
    decreases kv,
{
    seq![0x22u8] + esc(kv.0) + seq![0x22u8, 0x3au8] + ser(kv.1)
}

/// Comma-separated serialization of object members.
pub open spec fn ser_members(kvs: Seq<(Seq<u8>, JsonVal)>) -> Seq<u8>
    decreases kvs,
{
    if kvs.len() == 0 {
        Seq::empty()
    } else if kvs.len() == 1 {
        ser_member(kvs[0])
    } else {
        ser_members(kvs.drop_last()) + seq![0x2cu8] + ser_member(kvs.last())
    }
}

/// The bytes a recorded range points at: for a string leaf the escaped
/// string body without its quotes, for anything else the full serialized
/// form.
pub open spec fn slice_of(v: JsonVal) -> Seq<u8> {
    match v {
        JsonVal::String(s) => esc(s),
        _ => ser(v),
    }
}

/// The `(path, node)` pairs a serializer walk records for the descendants
/// of `v` (in walk order: each child's own descendants first, then the
/// child itself). `v`'s own path is never recorded.
pub open spec fn index_entries(v: JsonVal, prefix: Seq<u8>) -> Seq<(Seq<u8>, JsonVal)>
    decreases v, 0int,
{
    match v {
        JsonVal::Array(items) => arr_entries(items, prefix, items.len() as int),
        JsonVal::Object(kvs) => obj_entries(kvs, prefix, kvs.len() as int),
        _ => Seq::empty(),
    }
}

/// Entries of the first `n` members of an object.
pub open spec fn obj_entries(kvs: Seq<(Seq<u8>, JsonVal)>, prefix: Seq<u8>, n: int) -> Seq<
    (Seq<u8>, JsonVal),
>
    decreases kvs, n,
{
    if n <= 0 || n > kvs.len() {
        Seq::empty()
    } else {
        let p = join_path(prefix, kvs[n - 1].0);
        obj_entries(kvs, prefix, n - 1) + index_entries(kvs[n - 1].1, p) + seq![(p, kvs[n - 1].1)]
    }
}

/// Entries of the first `n` elements of an array.
pub open spec fn arr_entries(items: Seq<JsonVal>, prefix: Seq<u8>, n: int) -> Seq<
    (Seq<u8>, JsonVal),
>
    decreases items, n,
{
    if n <= 0 || n > items.len() {
        Seq::empty()
    } else {
        let p = join_path(prefix, dec_str((n - 1) as nat));
        arr_entries(items, prefix, n - 1) + index_entries(items[n - 1], p) + seq![(p, items[n
            - 1])]
    }
}

/// A recorded half-open byte range into a serialized buffer.
pub struct KeyValueRange {
    pub start: usize,
    pub end: usize,
}

impl From<(usize, usize)> for KeyValueRange {
    fn from(value: (usize, usize)) -> (r: Self) {
        KeyValueRange { start: value.0, end: value.1 }
    }
}

impl vstd::std_specs::convert::FromSpecImpl<(usize, usize)> for KeyValueRange {
    open spec fn obeys_from_spec() -> bool {
        true
    }

    open spec fn from_spec(value: (usize, usize)) -> Self {
        KeyValueRange { start: value.0, end: value.1 }
    }
}

/// One recorded range is faithful to its entry against the buffer `data`:
/// it lies in bounds and slices to exactly the entry's value bytes
/// (re-escaped once more in the double-escaped buffer).
pub open spec fn entry_ok(
    e: (Vec<u8>, KeyValueRange),
    ent: (Seq<u8>, JsonVal),
    data: Seq<u8>,
    dbl: bool,
) -> bool {
    &&& e.0@ == ent.0
    &&& e.1.start <= e.1.end <= data.len()
    &&& data.subrange(e.1.start as int, e.1.end as int) == if dbl {
        esc(slice_of(ent.1))
    } else {
        slice_of(ent.1)
    }
}

/// A recorded index is faithful to a list of entries against `data`.
pub open spec fn entries_ok(
    es: Seq<(Vec<u8>, KeyValueRange)>,
    ents: Seq<(Seq<u8>, JsonVal)>,
    data: Seq<u8>,
    dbl: bool,
) -> bool {
    &&& es.len() == ents.len()
    &&& forall|i: int| 0 <= i < es.len() ==> #[trigger] entry_ok(es[i], ents[i], data, dbl)
}

/// Ranges stay faithful when the buffer only grows at the end.
pub proof fn lemma_entries_ok_grow(
    es: Seq<(Vec<u8>, KeyValueRange)>,
    ents: Seq<(Seq<u8>, JsonVal)>,
    data: Seq<u8>,
    data2: Seq<u8>,
    dbl: bool,
)
    requires
        entries_ok(es, ents, data, dbl),
        data2.len() >= data.len(),
        data2.take(data.len() as int) == data,
    ensures
        entries_ok(es, ents, data2, dbl),
{
    assert forall|i: int| 0 <= i < es.len() implies #[trigger] entry_ok(es[i], ents[i], data2, dbl)
        by {
        assert(entry_ok(es[i], ents[i], data, dbl));
        let s = es[i].1.start as int;
        let e = es[i].1.end as int;
        assert(data2.subrange(s, e) =~= data.subrange(s, e));
    }
}

/// Appends a copy of `src`.
pub(crate) fn append_bytes(dst: &mut Vec<u8>, src: &Vec<u8>)
    ensures
        final(dst)@ == old(dst)@ + src@,
{
    let mut i: usize = 0;
    while i < src.len()
        invariant
            i <= src.len(),
            dst@ == old(dst)@ + src@.take(i as int),
        decreases src.len() - i,
    {
        dst.push(src[i]);
        proof {
            assert(src@.take(i as int).push(src@[i as int]) =~= src@.take(i + 1 as int));
            assert(dst@ =~= old(dst)@ + src@.take(i + 1 as int));
        }
        i += 1;
    }
    proof {
        assert(src@.take(src@.len() as int) =~= src@);
    }
}

/// Appends the escaped form of one byte.
fn push_esc_byte(out: &mut Vec<u8>, b: u8)
    ensures
        final(out)@ == old(out)@ + esc_byte(b),
{
    if b == 0x22 {
        out.push(0x5c);
        out.push(0x22);
    } else if b == 0x5c {
        out.push(0x5c);
        out.push(0x5c);
    } else if b == 0x08 {
        out.push(0x5c);
        out.push(0x62);
    } else if b == 0x09 {
        out.push(0x5c);
        out.push(0x74);
    } else if b == 0x0a {
        out.push(0x5c);
        out.push(0x6e);
    } else if b == 0x0c {
        out.push(0x5c);
        out.push(0x66);
    } else if b == 0x0d {
        out.push(0x5c);
        out.push(0x72);
    } else if b < 0x20 {
        out.push(0x5c);
        out.push(0x75);
        out.push(0x30);
        out.push(0x30);
        let hi = b / 16;
        let lo = b % 16;
        out.push(if hi < 10 { 0x30 + hi } else { 0x57 + hi });
        out.push(if lo < 10 { 0x30 + lo } else { 0x57 + lo });
    } else {
        out.push(b);
    }
    proof {
        assert(out@ =~= old(out)@ + esc_byte(b));
    }
}

/// Appends the escaped form of `s`.
fn escape_into(out: &mut Vec<u8>, s: &Vec<u8>)
    ensures
        final(out)@ == old(out)@ + esc(s@),
{
    let mut i: usize = 0;
    while i < s.len()
        invariant
            i <= s.len(),
            out@ == old(out)@ + esc(s@.take(i as int)),
        decreases s.len() - i,
    {
        push_esc_byte(out, s[i]);
        proof {
            assert(s@.take(i as int).push(s@[i as int]) =~= s@.take(i + 1 as int));
            lemma_esc_push(s@.take(i as int), s@[i as int]);
        }
        i += 1;
    }
    proof {
        assert(s@.take(s@.len() as int) =~= s@);
    }
}

/// The escaped form of `s` as an owned vector.
fn escape_vec(s: &Vec<u8>) -> (r: Vec<u8>)
    ensures
        r@ == esc(s@),
{
    let mut r: Vec<u8> = Vec::new();
    escape_into(&mut r, s);
    r
}

/// Escaping a one-byte string is escaping the byte.
proof fn lemma_esc_singleton(b: u8)
    ensures
        esc(seq![b]) == esc_byte(b),
{
    assert(seq![b].drop_first() =~= Seq::<u8>::empty());
    assert(seq![b][0] == b);
    assert(esc(Seq::<u8>::empty()) == Seq::<u8>::empty());
    assert(esc(seq![b]) == esc_byte(b) + esc(Seq::<u8>::empty()));
    assert(esc(seq![b]) =~= esc_byte(b));
}

/// The serialized output of one tree, with the byte range of every
/// reachable path's value in it.
pub struct SerializedWithKeys {
    pub data: Vec<u8>,
    pub key_values: Vec<(Vec<u8>, KeyValueRange)>,
    pub length: usize,
}

/// The length of one serialized element: `outer` counts delimiting quote
/// bytes of a string form, `inner` does not; the two agree for everything
/// that is not a string.
pub struct JsonLength {
    pub inner: usize,
    pub outer: usize,
}

impl From<usize> for JsonLength {
    fn from(value: usize) -> (r: Self) {
        JsonLength { inner: value, outer: value }
    }
}

impl vstd::std_specs::convert::FromSpecImpl<usize> for JsonLength {
    open spec fn obeys_from_spec() -> bool {
        true
    }

    open spec fn from_spec(value: usize) -> Self {
        JsonLength { inner: value, outer: value }
    }
}

impl From<(usize, usize)> for JsonLength {
    fn from(value: (usize, usize)) -> (r: Self) {
        JsonLength { inner: value.0, outer: value.1 }
    }
}

impl vstd::std_specs::convert::FromSpecImpl<(usize, usize)> for JsonLength {
    open spec fn obeys_from_spec() -> bool {
        true
    }

    open spec fn from_spec(value: (usize, usize)) -> Self {
        JsonLength { inner: value.0, outer: value.1 }
    }
}

/// Serializes a document tree while collecting, for every reachable path,
/// the byte range of its value in the serialized output.
pub struct JsonSerializer {}

/// One pass over `value`, appending its single-escaped serialization to
/// `sdata` and its double-escaped serialization to `ddata`, and recording
/// the range of every descendant in `skv` and `dkv` respectively.
#[verifier::loop_isolation(false)]
fn rec_serialize(
    value: &JsonNode,
    path: &Vec<u8>,
    sdata: &mut Vec<u8>,
    skv: &mut Vec<(Vec<u8>, KeyValueRange)>,
    ddata: &mut Vec<u8>,
    dkv: &mut Vec<(Vec<u8>, KeyValueRange)>,
) -> (r: (JsonLength, JsonLength))
    requires
        val_wf(node_view(*value)),
    ensures
        final(sdata)@ == old(sdata)@ + ser(node_view(*value)),
        final(ddata)@ == old(ddata)@ + esc(ser(node_view(*value))),
        final(skv)@.len() == old(skv)@.len() + index_entries(node_view(*value), path@).len(),
        final(dkv)@.len() == old(dkv)@.len() + index_entries(node_view(*value), path@).len(),
        final(skv)@.take(old(skv)@.len() as int) == old(skv)@,
        entries_ok(
            final(skv)@.skip(old(skv)@.len() as int),
            index_entries(node_view(*value), path@),
            final(sdata)@,
            false,
        ),
        final(dkv)@.take(old(dkv)@.len() as int) == old(dkv)@,
        entries_ok(
            final(dkv)@.skip(old(dkv)@.len() as int),
            index_entries(node_view(*value), path@),
            final(ddata)@,
            true,
        ),
        r.0.outer == ser(node_view(*value)).len(),
        r.0.inner == slice_of(node_view(*value)).len(),
        (r.0.inner != r.0.outer) <==> node_view(*value) is String,
        r.1.outer == esc(ser(node_view(*value))).len(),
        r.1.inner == esc(slice_of(node_view(*value))).len(),
        (r.1.inner != r.1.outer) <==> node_view(*value) is String,
    decreases *value,
{
    let n0 = sdata.len();
    let m0 = ddata.len();
    let ghost v = node_view(*value);
    match value {
        JsonNode::Null => {
            sdata.push(0x6e);
            sdata.push(0x75);
            sdata.push(0x6c);
            sdata.push(0x6c);
            ddata.push(0x6e);
            ddata.push(0x75);
            ddata.push(0x6c);
            ddata.push(0x6c);
            proof {
                assert(sdata@ =~= old(sdata)@ + ser(v));
                assert(ddata@ =~= old(ddata)@ + ser(v));
                assert(plain_bytes(ser(v))) by {
                    let lit = ser(v);
                    assert(lit[0] == 0x6e && lit[1] == 0x75 && lit[2] == 0x6c && lit[3] == 0x6c);
                }
                lemma_esc_plain(ser(v));
                lemma_no_entries(skv@, dkv@, v, path@, sdata@, ddata@);
            }
            let outer = sdata.len() - n0;
            (JsonLength::from(outer), JsonLength::from(ddata.len() - m0))
        },
        JsonNode::Bool(b) => {
            if *b {
                sdata.push(0x74);
                sdata.push(0x72);
                sdata.push(0x75);
                sdata.push(0x65);
                ddata.push(0x74);
                ddata.push(0x72);
                ddata.push(0x75);
                ddata.push(0x65);
            } else {
                sdata.push(0x66);
                sdata.push(0x61);
                sdata.push(0x6c);
                sdata.push(0x73);
                sdata.push(0x65);
                ddata.push(0x66);
                ddata.push(0x61);
                ddata.push(0x6c);
                ddata.push(0x73);
                ddata.push(0x65);
            }
            proof {
                assert(sdata@ =~= old(sdata)@ + ser(v));
                assert(ddata@ =~= old(ddata)@ + ser(v));
                assert(plain_bytes(ser(v))) by {
                    let lit = ser(v);
                    if v->Bool_0 {
                        assert(lit[0] == 0x74 && lit[1] == 0x72 && lit[2] == 0x75 && lit[3]
                            == 0x65);
                    } else {
                        assert(lit[0] == 0x66 && lit[1] == 0x61 && lit[2] == 0x6c && lit[3]
                            == 0x73 && lit[4] == 0x65);
                    }
                }
                lemma_esc_plain(ser(v));
                lemma_no_entries(skv@, dkv@, v, path@, sdata@, ddata@);
            }
            let outer = sdata.len() - n0;
            (JsonLength::from(outer), JsonLength::from(ddata.len() - m0))
        },
        JsonNode::Number(t) => {
            append_bytes(sdata, t);
            append_bytes(ddata, t);
            proof {
                assert(plain_bytes(t@));
                assert(sdata@ =~= old(sdata)@ + ser(v));
                assert(ddata@ =~= old(ddata)@ + ser(v));
                lemma_esc_plain(ser(v));
                lemma_no_entries(skv@, dkv@, v, path@, sdata@, ddata@);
            }
            let outer = sdata.len() - n0;
            (JsonLength::from(outer), JsonLength::from(ddata.len() - m0))
        },
        JsonNode::String(s) => {
            let ev = escape_vec(s);
            sdata.push(0x22);
            append_bytes(sdata, &ev);
            sdata.push(0x22);
            ddata.push(0x5c);
            ddata.push(0x22);
            escape_into(ddata, &ev);
            ddata.push(0x5c);
            ddata.push(0x22);
            proof {
                assert(sdata@ =~= old(sdata)@ + ser(v));
                lemma_esc_concat(seq![0x22u8], esc(s@) + seq![0x22u8]);
                lemma_esc_concat(esc(s@), seq![0x22u8]);
                lemma_esc_singleton(0x22);
                assert(seq![0x22u8] + (esc(s@) + seq![0x22u8]) =~= ser(v));
                assert(esc(ser(v)) =~= seq![0x5cu8, 0x22u8] + esc(esc(s@)) + seq![
                    0x5cu8,
                    0x22u8,
                ]);
                assert(ddata@ =~= old(ddata)@ + esc(ser(v)));
                lemma_no_entries(skv@, dkv@, v, path@, sdata@, ddata@);
                assert(ser(v).len() >= 2);
                assert(esc(ser(v)).len() == esc(esc(s@)).len() + 4);
            }
            let outer = sdata.len() - n0;
            let douter = ddata.len() - m0;
            (JsonLength::from((outer - 2, outer)), JsonLength::from((douter - 4, douter)))
        },
        JsonNode::Array(items) => rec_serialize_array(items, path, sdata, skv, ddata, dkv),
        JsonNode::Object(kvs) => rec_serialize_object(kvs, path, sdata, skv, ddata, dkv),
    }
}

/// A node without children records no entries.
proof fn lemma_no_entries(
    skv: Seq<(Vec<u8>, KeyValueRange)>,
    dkv: Seq<(Vec<u8>, KeyValueRange)>,
    v: JsonVal,
    path: Seq<u8>,
    sdata: Seq<u8>,
    ddata: Seq<u8>,
)
    requires
        !(v is Array),
        !(v is Object),
    ensures
        skv.take(skv.len() as int) == skv,
        entries_ok(skv.skip(skv.len() as int), index_entries(v, path), sdata, false),
        dkv.take(dkv.len() as int) == dkv,
        entries_ok(dkv.skip(dkv.len() as int), index_entries(v, path), ddata, true),
{
    assert(skv.take(skv.len() as int) =~= skv);
    assert(dkv.take(dkv.len() as int) =~= dkv);
    assert(skv.skip(skv.len() as int) =~= Seq::<(Vec<u8>, KeyValueRange)>::empty());
    assert(dkv.skip(dkv.len() as int) =~= Seq::<(Vec<u8>, KeyValueRange)>::empty());
}

/// Faithful indexes concatenate.
proof fn lemma_entries_ok_concat(
    e1: Seq<(Vec<u8>, KeyValueRange)>,
    e2: Seq<(Vec<u8>, KeyValueRange)>,
    n1: Seq<(Seq<u8>, JsonVal)>,
    n2: Seq<(Seq<u8>, JsonVal)>,
    data: Seq<u8>,
    dbl: bool,
)
    requires
        entries_ok(e1, n1, data, dbl),
        entries_ok(e2, n2, data, dbl),
    ensures
        entries_ok(e1 + e2, n1 + n2, data, dbl),
{
    assert forall|i: int| 0 <= i < (e1 + e2).len() implies #[trigger] entry_ok(
        (e1 + e2)[i],
        (n1 + n2)[i],
        data,
        dbl,
    ) by {
        if i < e1.len() {
            assert(entry_ok(e1[i], n1[i], data, dbl));
        } else {
            assert(entry_ok(e2[i - e1.len()], n2[i - n1.len()], data, dbl));
        }
    }
}

/// The double-escaped form of one member.
proof fn lemma_esc_member(m: (Seq<u8>, JsonVal))
    ensures
        esc(ser_member(m)) == seq![0x5cu8, 0x22u8] + esc(esc(m.0)) + seq![
            0x5cu8,
            0x22u8,
            0x3au8,
        ] + esc(ser(m.1)),
{
    let a = seq![0x22u8];
    let b = esc(m.0);
    let c = seq![0x22u8, 0x3au8];
    let d = ser(m.1);
    assert(ser_member(m) =~= a + (b + (c + d)));
    lemma_esc_concat(a, b + (c + d));
    lemma_esc_concat(b, c + d);
    lemma_esc_concat(c, d);
    lemma_esc_singleton(0x22);
    lemma_esc_singleton(0x3a);
    assert(c =~= seq![0x22u8] + seq![0x3au8]);
    lemma_esc_concat(seq![0x22u8], seq![0x3au8]);
    assert(esc(ser_member(m)) =~= seq![0x5cu8, 0x22u8] + esc(esc(m.0)) + seq![
        0x5cu8,
        0x22u8,
        0x3au8,
    ] + esc(ser(m.1)));
}

/// The double-escaped form of a serialized string.
proof fn lemma_esc_ser_string(sc: Seq<u8>)
    ensures
        esc(ser(JsonVal::String(sc))) == seq![0x5cu8, 0x22u8] + esc(esc(sc)) + seq![
            0x5cu8,
            0x22u8,
        ],
        esc(ser(JsonVal::String(sc))).len() == esc(esc(sc)).len() + 4,
{
    assert(ser(JsonVal::String(sc)) =~= seq![0x22u8] + (esc(sc) + seq![0x22u8]));
    lemma_esc_concat(seq![0x22u8], esc(sc) + seq![0x22u8]);
    lemma_esc_concat(esc(sc), seq![0x22u8]);
    lemma_esc_singleton(0x22);
    assert(esc(ser(JsonVal::String(sc))) =~= seq![0x5cu8, 0x22u8] + esc(esc(sc)) + seq![
        0x5cu8,
        0x22u8,
    ]);
}

/// One walk step extends a faithful index by a child's entries and the
/// child's own range.
proof fn lemma_entries_step(
    kv_all: Seq<(Vec<u8>, KeyValueRange)>,
    kv_pre: Seq<(Vec<u8>, KeyValueRange)>,
    kv_mid: Seq<(Vec<u8>, KeyValueRange)>,
    base: int,
    acc: Seq<(Seq<u8>, JsonVal)>,
    child: Seq<(Seq<u8>, JsonVal)>,
    p: Seq<u8>,
    cv: JsonVal,
    own: (Vec<u8>, KeyValueRange),
    data_pre: Seq<u8>,
    data: Seq<u8>,
    dbl: bool,
)
    requires
        0 <= base,
        kv_pre.len() == base + acc.len(),
        entries_ok(kv_pre.skip(base), acc, data_pre, dbl),
        data.len() >= data_pre.len(),
        data.take(data_pre.len() as int) == data_pre,
        kv_mid.take(kv_pre.len() as int) == kv_pre,
        kv_mid.len() == kv_pre.len() + child.len(),
        entries_ok(kv_mid.skip(kv_pre.len() as int), child, data, dbl),
        kv_all == kv_mid.push(own),
        entry_ok(own, (p, cv), data, dbl),
    ensures
        kv_all.take(base) == kv_pre.take(base),
        kv_all.len() == base + (acc + child + seq![(p, cv)]).len(),
        entries_ok(kv_all.skip(base), acc + child + seq![(p, cv)], data, dbl),
{
    lemma_entries_ok_grow(kv_pre.skip(base), acc, data_pre, data, dbl);
    assert(kv_mid.skip(base) =~= kv_pre.skip(base) + kv_mid.skip(kv_pre.len() as int)) by {
        assert(forall|j: int|
            0 <= j < kv_pre.len() ==> kv_mid.take(kv_pre.len() as int)[j] == kv_mid[j]);
    }
    lemma_entries_ok_concat(
        kv_pre.skip(base),
        kv_mid.skip(kv_pre.len() as int),
        acc,
        child,
        data,
        dbl,
    );
    assert(entries_ok(seq![own], seq![(p, cv)], data, dbl)) by {
        assert(entry_ok(seq![own][0], seq![(p, cv)][0], data, dbl));
    }
    lemma_entries_ok_concat(kv_mid.skip(base), seq![own], acc + child, seq![(p, cv)], data, dbl);
    assert(kv_all.skip(base) =~= kv_mid.skip(base) + seq![own]);
    assert(kv_all.take(base) =~= kv_pre.take(base)) by {
        assert(forall|j: int|
            0 <= j < kv_pre.len() ==> kv_mid.take(kv_pre.len() as int)[j] == kv_mid[j]);
    }
}

/// Emits the elements of an array between its brackets.
#[verifier::loop_isolation(false)]
#[verifier::rlimit(100)]
fn rec_serialize_array(
    items: &Vec<JsonNode>,
    path: &Vec<u8>,
    sdata: &mut Vec<u8>,
    skv: &mut Vec<(Vec<u8>, KeyValueRange)>,
    ddata: &mut Vec<u8>,
    dkv: &mut Vec<(Vec<u8>, KeyValueRange)>,
) -> (r: (JsonLength, JsonLength))
    requires
        val_wf(JsonVal::Array(items_view(items@))),
    ensures
        final(sdata)@ == old(sdata)@ + ser(JsonVal::Array(items_view(items@))),
        final(ddata)@ == old(ddata)@ + esc(ser(JsonVal::Array(items_view(items@)))),
        final(skv)@.len() == old(skv)@.len() + index_entries(
            JsonVal::Array(items_view(items@)),
            path@,
        ).len(),
        final(dkv)@.len() == old(dkv)@.len() + index_entries(
            JsonVal::Array(items_view(items@)),
            path@,
        ).len(),
        final(skv)@.take(old(skv)@.len() as int) == old(skv)@,
        entries_ok(
            final(skv)@.skip(old(skv)@.len() as int),
            index_entries(JsonVal::Array(items_view(items@)), path@),
            final(sdata)@,
            false,
        ),
        final(dkv)@.take(old(dkv)@.len() as int) == old(dkv)@,
        entries_ok(
            final(dkv)@.skip(old(dkv)@.len() as int),
            index_entries(JsonVal::Array(items_view(items@)), path@),
            final(ddata)@,
            true,
        ),
        r.0.outer == ser(JsonVal::Array(items_view(items@))).len(),
        r.0.inner == r.0.outer,
        r.1.outer == esc(ser(JsonVal::Array(items_view(items@)))).len(),
        r.1.inner == r.1.outer,
    decreases *items,
{
    let ghost itemsv = items_view(items@);
    let ghost v = JsonVal::Array(itemsv);
    let n0 = sdata.len();
    let m0 = ddata.len();
    let ghost kv0 = skv@;
    let ghost dkv0 = dkv@;
    proof {
        lemma_items_view(items@);
        crate::node::lemma_arr_wf_unfold(itemsv);
    }
    sdata.push(0x5b);
    ddata.push(0x5b);
    let mut i: usize = 0;
    while i < items.len()
        invariant
            i <= items.len(),
            sdata@ == old(sdata)@ + seq![0x5bu8] + ser_items(itemsv.take(i as int)),
            ddata@ == old(ddata)@ + seq![0x5bu8] + esc(ser_items(itemsv.take(i as int))),
            skv@.take(kv0.len() as int) == kv0,
            skv@.len() == kv0.len() + arr_entries(itemsv, path@, i as int).len(),
            entries_ok(
                skv@.skip(kv0.len() as int),
                arr_entries(itemsv, path@, i as int),
                sdata@,
                false,
            ),
            dkv@.take(dkv0.len() as int) == dkv0,
            dkv@.len() == dkv0.len() + arr_entries(itemsv, path@, i as int).len(),
            entries_ok(
                dkv@.skip(dkv0.len() as int),
                arr_entries(itemsv, path@, i as int),
                ddata@,
                true,
            ),
        decreases items.len() - i,
    {
        let ghost s_pre = sdata@;
        let ghost d_pre = ddata@;
        let ghost tk = itemsv.take(i as int);
        let ghost tk1 = itemsv.take(i + 1 as int);
        proof {
            assert(tk1.drop_last() =~= tk);
            assert(tk1.last() == itemsv[i as int]);
        }
        if i > 0 {
            sdata.push(0x2c);
            ddata.push(0x2c);
        }
        let mut cpath: Vec<u8>;
        if path.len() == 0 {
            cpath = Vec::new();
        } else {
            cpath = clone_bytes(path);
            cpath.push(0x2e);
        }
        push_dec(&mut cpath, i);
        let ghost p = join_path(path@, dec_str(i as nat));
        proof {
            assert(itemsv[i as int] == node_view(items@[i as int]));
            assert(cpath@ =~= p);
            assert(val_wf(itemsv[i as int]));
            assert(decreases_to!(*items => items@[i as int]));
        }
        let s0 = sdata.len();
        let d0 = ddata.len();
        let ghost skv_pre = skv@;
        let ghost dkv_pre = dkv@;
        let ghost s_key = sdata@;
        let ghost d_key = ddata@;
        let (l1, l2) = rec_serialize(&items[i], &cpath, sdata, skv, ddata, dkv);
        let ghost skv_mid = skv@;
        let ghost dkv_mid = dkv@;
        let ghost cv = itemsv[i as int];
        let e0 = sdata.len();
        let ed = ddata.len();
        let start1 = if l1.inner != l1.outer {
            s0 + 1
        } else {
            s0
        };
        let end1 = if l1.inner != l1.outer {
            e0 - 1
        } else {
            e0
        };
        skv.push((clone_bytes(&cpath), KeyValueRange { start: start1, end: end1 }));
        let start2 = if l2.inner != l2.outer {
            d0 + 2
        } else {
            d0
        };
        let end2 = if l2.inner != l2.outer {
            ed - 2
        } else {
            ed
        };
        dkv.push((cpath, KeyValueRange { start: start2, end: end2 }));
        proof {
            let sep: Seq<u8> = if i > 0 {
                seq![0x2cu8]
            } else {
                Seq::empty()
            };
            assert(s_key =~= s_pre + sep);
            assert(sdata@ == s_key + ser(cv));
            if i == 0 {
                assert(ser_items(tk1) == ser(itemsv[0]));
            } else {
                assert(ser_items(tk1) == ser_items(tk) + seq![0x2cu8] + ser(itemsv[i as int]));
            }
            assert(sdata@ =~= old(sdata)@ + seq![0x5bu8] + ser_items(tk1));
            lemma_esc_singleton(0x2c);
            if i > 0 {
                assert(esc(ser_items(tk1)) == esc(
                    (ser_items(tk) + seq![0x2cu8]) + ser(itemsv[i as int]),
                ));
                lemma_esc_concat(ser_items(tk) + seq![0x2cu8], ser(itemsv[i as int]));
                lemma_esc_concat(ser_items(tk), seq![0x2cu8]);
            }
            assert(d_key =~= d_pre + sep);
            assert(ddata@ == d_key + esc(ser(cv)));
            assert(ddata@ =~= old(ddata)@ + seq![0x5bu8] + esc(ser_items(tk1)));
            if cv is String {
                lemma_esc_ser_string(cv->String_0);
            }
            assert(sdata@.subrange(start1 as int, end1 as int) =~= slice_of(cv));
            assert(ddata@.subrange(start2 as int, end2 as int) =~= esc(slice_of(cv)));
            assert(entry_ok(skv@.last(), (p, cv), sdata@, false));
            assert(entry_ok(dkv@.last(), (p, cv), ddata@, true));
            assert(arr_entries(itemsv, path@, i + 1 as int) == arr_entries(itemsv, path@, i as int)
                + index_entries(cv, p) + seq![(p, cv)]);
            assert(sdata@.take(s_pre.len() as int) =~= s_pre);
            assert(ddata@.take(d_pre.len() as int) =~= d_pre);
            assert(skv@ == skv_mid.push(skv@.last()));
            assert(dkv@ == dkv_mid.push(dkv@.last()));
            lemma_entries_step(
                skv@,
                skv_pre,
                skv_mid,
                kv0.len() as int,
                arr_entries(itemsv, path@, i as int),
                index_entries(cv, p),
                p,
                cv,
                skv@.last(),
                s_pre,
                sdata@,
                false,
            );
            lemma_entries_step(
                dkv@,
                dkv_pre,
                dkv_mid,
                dkv0.len() as int,
                arr_entries(itemsv, path@, i as int),
                index_entries(cv, p),
                p,
                cv,
                dkv@.last(),
                d_pre,
                ddata@,
                true,
            );
            assert(skv@.take(kv0.len() as int) == kv0);
            assert(dkv@.take(dkv0.len() as int) == dkv0);
        }
        i += 1;
    }
    let ghost s_end = sdata@;
    let ghost d_end = ddata@;
    sdata.push(0x5d);
    ddata.push(0x5d);
    proof {
        assert(itemsv.take(items@.len() as int) =~= itemsv);
        assert(sdata@ =~= old(sdata)@ + ser(v));
        lemma_esc_singleton(0x5b);
        lemma_esc_singleton(0x5d);
        assert(ser(v) =~= seq![0x5bu8] + (ser_items(itemsv) + seq![0x5du8]));
        lemma_esc_concat(seq![0x5bu8], ser_items(itemsv) + seq![0x5du8]);
        lemma_esc_concat(ser_items(itemsv), seq![0x5du8]);
        assert(ddata@ =~= old(ddata)@ + esc(ser(v)));
        assert(sdata@.take(s_end.len() as int) =~= s_end);
        lemma_entries_ok_grow(
            skv@.skip(kv0.len() as int),
            arr_entries(itemsv, path@, items@.len() as int),
            s_end,
            sdata@,
            false,
        );
        assert(ddata@.take(d_end.len() as int) =~= d_end);
        lemma_entries_ok_grow(
            dkv@.skip(dkv0.len() as int),
            arr_entries(itemsv, path@, items@.len() as int),
            d_end,
            ddata@,
            true,
        );
        assert(index_entries(v, path@) == arr_entries(itemsv, path@, itemsv.len() as int));
    }
    let outer = sdata.len() - n0;
    let douter = ddata.len() - m0;
    (JsonLength::from(outer), JsonLength::from(douter))
}

/// The separating comma before a member or element, when one is due.
pub open spec fn sepc(comma: bool) -> Seq<u8> {
    if comma {
        seq![0x2cu8]
    } else {
        Seq::empty()
    }
}

/// Emits a member key to both buffers, with its separating comma.
fn emit_member_key(key: &Vec<u8>, comma: bool, sdata: &mut Vec<u8>, ddata: &mut Vec<u8>)
    ensures
        final(sdata)@ == old(sdata)@ + sepc(comma) + seq![0x22u8] + esc(key@) + seq![
            0x22u8,
            0x3au8,
        ],
        final(ddata)@ == old(ddata)@ + sepc(comma) + seq![0x5cu8, 0x22u8] + esc(esc(key@)) + seq![
            0x5cu8,
            0x22u8,
            0x3au8,
        ],
{
    if comma {
        sdata.push(0x2c);
        ddata.push(0x2c);
    }
    sdata.push(0x22);
    escape_into(sdata, key);
    sdata.push(0x22);
    sdata.push(0x3a);
    ddata.push(0x5c);
    ddata.push(0x22);
    let ek = escape_vec(key);
    escape_into(ddata, &ek);
    ddata.push(0x5c);
    ddata.push(0x22);
    ddata.push(0x3a);
    proof {
        assert(sdata@ =~= old(sdata)@ + sepc(comma) + seq![0x22u8] + esc(key@) + seq![
            0x22u8,
            0x3au8,
        ]);
        assert(ddata@ =~= old(ddata)@ + sepc(comma) + seq![0x5cu8, 0x22u8] + esc(esc(key@))
            + seq![0x5cu8, 0x22u8, 0x3au8]);
    }
}

/// One more member extends the serialized member list by a separator and
/// the member's own form, in both escapings.
proof fn lemma_ser_members_step(kvsv: Seq<(Seq<u8>, JsonVal)>, i: int)
    requires
        0 <= i < kvsv.len(),
    ensures
        ser_members(kvsv.take(i + 1)) == ser_members(kvsv.take(i)) + sepc(i > 0) + ser_member(
            kvsv[i],
        ),
        esc(ser_members(kvsv.take(i + 1))) == esc(ser_members(kvsv.take(i))) + sepc(i > 0) + esc(
            ser_member(kvsv[i]),
        ),
{
    let tk = kvsv.take(i);
    let tk1 = kvsv.take(i + 1);
    assert(tk1.drop_last() =~= tk);
    assert(tk1.last() == kvsv[i]);
    lemma_esc_singleton(0x2c);
    if i == 0 {
        assert(ser_members(tk1) == ser_member(kvsv[0]));
        assert(ser_members(tk) == Seq::<u8>::empty());
        assert(esc(ser_members(tk)) == Seq::<u8>::empty());
        assert(ser_members(tk1) =~= ser_members(tk) + sepc(i > 0) + ser_member(kvsv[i]));
        assert(esc(ser_members(tk1)) =~= esc(ser_members(tk)) + sepc(i > 0) + esc(ser_member(
            kvsv[i],
        )));
    } else {
        assert(ser_members(tk1) == ser_members(tk) + seq![0x2cu8] + ser_member(kvsv[i]));
        assert(ser_members(tk1) == (ser_members(tk) + seq![0x2cu8]) + ser_member(kvsv[i]));
        lemma_esc_concat(ser_members(tk) + seq![0x2cu8], ser_member(kvsv[i]));
        lemma_esc_concat(ser_members(tk), seq![0x2cu8]);
        assert(ser_members(tk1) =~= ser_members(tk) + sepc(i > 0) + ser_member(kvsv[i]));
        assert(esc(ser_members(tk1)) =~= esc(ser_members(tk)) + sepc(i > 0) + esc(ser_member(
            kvsv[i],
        )));
    }
}

/// Emits the members of an object between its braces.
#[verifier::loop_isolation(false)]
#[verifier::rlimit(100)]
fn rec_serialize_object(
    kvs: &Vec<(Vec<u8>, JsonNode)>,
    path: &Vec<u8>,
    sdata: &mut Vec<u8>,
    skv: &mut Vec<(Vec<u8>, KeyValueRange)>,
    ddata: &mut Vec<u8>,
    dkv: &mut Vec<(Vec<u8>, KeyValueRange)>,
) -> (r: (JsonLength, JsonLength))
    requires
        val_wf(JsonVal::Object(kvs_view(kvs@))),
    ensures
        final(sdata)@ == old(sdata)@ + ser(JsonVal::Object(kvs_view(kvs@))),
        final(ddata)@ == old(ddata)@ + esc(ser(JsonVal::Object(kvs_view(kvs@)))),
        final(skv)@.len() == old(skv)@.len() + index_entries(
            JsonVal::Object(kvs_view(kvs@)),
            path@,
        ).len(),
        final(dkv)@.len() == old(dkv)@.len() + index_entries(
            JsonVal::Object(kvs_view(kvs@)),
            path@,
        ).len(),
        final(skv)@.take(old(skv)@.len() as int) == old(skv)@,
        entries_ok(
            final(skv)@.skip(old(skv)@.len() as int),
            index_entries(JsonVal::Object(kvs_view(kvs@)), path@),
            final(sdata)@,
            false,
        ),
        final(dkv)@.take(old(dkv)@.len() as int) == old(dkv)@,
        entries_ok(
            final(dkv)@.skip(old(dkv)@.len() as int),
            index_entries(JsonVal::Object(kvs_view(kvs@)), path@),
            final(ddata)@,
            true,
        ),
        r.0.outer == ser(JsonVal::Object(kvs_view(kvs@))).len(),
        r.0.inner == r.0.outer,
        r.1.outer == esc(ser(JsonVal::Object(kvs_view(kvs@)))).len(),
        r.1.inner == r.1.outer,
    decreases *kvs,
{
    let ghost kvsv = kvs_view(kvs@);
    let ghost v = JsonVal::Object(kvsv);
    let n0 = sdata.len();
    let m0 = ddata.len();
    let ghost kv0 = skv@;
    let ghost dkv0 = dkv@;
    proof {
        lemma_kvs_view(kvs@);
        crate::node::lemma_obj_wf_unfold(kvsv);
    }
    sdata.push(0x7b);
    ddata.push(0x7b);
    let mut i: usize = 0;
    while i < kvs.len()
        invariant
            i <= kvs.len(),
            sdata@ == old(sdata)@ + seq![0x7bu8] + ser_members(kvsv.take(i as int)),
            ddata@ == old(ddata)@ + seq![0x7bu8] + esc(ser_members(kvsv.take(i as int))),
            skv@.take(kv0.len() as int) == kv0,
            skv@.len() == kv0.len() + obj_entries(kvsv, path@, i as int).len(),
            entries_ok(
                skv@.skip(kv0.len() as int),
                obj_entries(kvsv, path@, i as int),
                sdata@,
                false,
            ),
            dkv@.take(dkv0.len() as int) == dkv0,
            dkv@.len() == dkv0.len() + obj_entries(kvsv, path@, i as int).len(),
            entries_ok(
                dkv@.skip(dkv0.len() as int),
                obj_entries(kvsv, path@, i as int),
                ddata@,
                true,
            ),
        decreases kvs.len() - i,
    {
        let ghost s_pre = sdata@;
        let ghost d_pre = ddata@;
        let ghost tk = kvsv.take(i as int);
        let ghost tk1 = kvsv.take(i + 1 as int);
        proof {
            assert(tk1.drop_last() =~= tk);
            assert(tk1.last() == kvsv[i as int]);
        }
        let key_ref = &kvs[i].0;
        emit_member_key(key_ref, i > 0, sdata, ddata);
        let mut cpath: Vec<u8>;
        if path.len() == 0 {
            cpath = clone_bytes(key_ref);
        } else {
            cpath = clone_bytes(path);
            cpath.push(0x2e);
            append_bytes(&mut cpath, key_ref);
        }
        let ghost p = join_path(path@, kvsv[i as int].0);
        proof {
            assert(kvsv[i as int] == (kvs@[i as int].0@, node_view(kvs@[i as int].1)));
            assert(cpath@ =~= p);
            assert(val_wf(kvsv[i as int].1));
            assert(decreases_to!(*kvs => kvs@[i as int].1));
        }
        let s0 = sdata.len();
        let d0 = ddata.len();
        let ghost skv_pre = skv@;
        let ghost dkv_pre = dkv@;
        let ghost s_key = sdata@;
        let ghost d_key = ddata@;
        let (l1, l2) = rec_serialize(&kvs[i].1, &cpath, sdata, skv, ddata, dkv);
        let ghost skv_mid = skv@;
        let ghost dkv_mid = dkv@;
        let ghost cv = kvsv[i as int].1;
        let e0 = sdata.len();
        let ed = ddata.len();
        let start1 = if l1.inner != l1.outer {
            s0 + 1
        } else {
            s0
        };
        let end1 = if l1.inner != l1.outer {
            e0 - 1
        } else {
            e0
        };
        skv.push((clone_bytes(&cpath), KeyValueRange { start: start1, end: end1 }));
        let start2 = if l2.inner != l2.outer {
            d0 + 2
        } else {
            d0
        };
        let end2 = if l2.inner != l2.outer {
            ed - 2
        } else {
            ed
        };
        dkv.push((cpath, KeyValueRange { start: start2, end: end2 }));
        proof {
            lemma_ser_members_step(kvsv, i as int);
            lemma_esc_member(kvsv[i as int]);
            assert(ser_member(kvsv[i as int]) == seq![0x22u8] + esc(kvsv[i as int].0) + seq![
                0x22u8,
                0x3au8,
            ] + ser(cv));
            assert(sdata@ == s_key + ser(cv));
            assert(ddata@ == d_key + esc(ser(cv)));
            assert(sdata@ =~= old(sdata)@ + seq![0x7bu8] + ser_members(tk1));
            assert(ddata@ =~= old(ddata)@ + seq![0x7bu8] + esc(ser_members(tk1)));
            // this member's own range points at its value bytes
            if cv is String {
                lemma_esc_ser_string(cv->String_0);
            }
            assert(sdata@.subrange(start1 as int, end1 as int) =~= slice_of(cv));
            assert(ddata@.subrange(start2 as int, end2 as int) =~= esc(slice_of(cv)));
            assert(entry_ok(skv@.last(), (p, cv), sdata@, false));
            assert(entry_ok(dkv@.last(), (p, cv), ddata@, true));
            // extend the faithful index
            assert(obj_entries(kvsv, path@, i + 1 as int) == obj_entries(kvsv, path@, i as int)
                + index_entries(cv, p) + seq![(p, cv)]);
            assert(sdata@.take(s_pre.len() as int) =~= s_pre);
            assert(ddata@.take(d_pre.len() as int) =~= d_pre);
            assert(skv@ == skv_mid.push(skv@.last()));
            assert(dkv@ == dkv_mid.push(dkv@.last()));
            lemma_entries_step(
                skv@,
                skv_pre,
                skv_mid,
                kv0.len() as int,
                obj_entries(kvsv, path@, i as int),
                index_entries(cv, p),
                p,
                cv,
                skv@.last(),
                s_pre,
                sdata@,
                false,
            );
            lemma_entries_step(
                dkv@,
                dkv_pre,
                dkv_mid,
                dkv0.len() as int,
                obj_entries(kvsv, path@, i as int),
                index_entries(cv, p),
                p,
                cv,
                dkv@.last(),
                d_pre,
                ddata@,
                true,
            );
            assert(skv@.take(kv0.len() as int) == kv0);
            assert(dkv@.take(dkv0.len() as int) == dkv0);
        }
        i += 1;
    }
    let ghost s_end = sdata@;
    let ghost d_end = ddata@;
    sdata.push(0x7d);
    ddata.push(0x7d);
    proof {
        assert(kvsv.take(kvs@.len() as int) =~= kvsv);
        assert(sdata@ =~= old(sdata)@ + ser(v));
        lemma_esc_singleton(0x7b);
        lemma_esc_singleton(0x7d);
        assert(ser(v) =~= seq![0x7bu8] + (ser_members(kvsv) + seq![0x7du8]));
        lemma_esc_concat(seq![0x7bu8], ser_members(kvsv) + seq![0x7du8]);
        lemma_esc_concat(ser_members(kvsv), seq![0x7du8]);
        assert(ddata@ =~= old(ddata)@ + esc(ser(v)));
        assert(sdata@.take(s_end.len() as int) =~= s_end);
        lemma_entries_ok_grow(
            skv@.skip(kv0.len() as int),
            obj_entries(kvsv, path@, kvs@.len() as int),
            s_end,
            sdata@,
            false,
        );
        assert(ddata@.take(d_end.len() as int) =~= d_end);
        lemma_entries_ok_grow(
            dkv@.skip(dkv0.len() as int),
            obj_entries(kvsv, path@, kvs@.len() as int),
            d_end,
            ddata@,
            true,
        );
        assert(index_entries(v, path@) == obj_entries(kvsv, path@, kvsv.len() as int));
    }
    let outer = sdata.len() - n0;
    let douter = ddata.len() - m0;
    (JsonLength::from(outer), JsonLength::from(douter))
}

impl JsonSerializer {
    /// Serializes a tree and returns it along with every nested path and
    /// the start and end positions of its value in the serialized bytes.
    /// When `double_serialize` is set, a second, doubly serialized output
    /// comes with its own ranges — without the outermost double quotes.
    pub fn serialize(value: &JsonNode, double_serialize: bool) -> (r: (
        SerializedWithKeys,
        Option<SerializedWithKeys>,
    ))
        requires
            val_wf(node_view(*value)),
        ensures
            r.0.data@ == ser(node_view(*value)),
            r.0.length == r.0.data@.len(),
            r.0.key_values@.len() == index_entries(node_view(*value), Seq::empty()).len(),
            entries_ok(
                r.0.key_values@,
                index_entries(node_view(*value), Seq::empty()),
                r.0.data@,
                false,
            ),
            double_serialize <==> r.1 is Some,
            r.1 matches Some(d) ==> {
                &&& d.data@ == esc(ser(node_view(*value)))
                &&& d.length == d.data@.len()
                &&& d.key_values@.len() == index_entries(node_view(*value), Seq::empty()).len()
                &&& entries_ok(
                    d.key_values@,
                    index_entries(node_view(*value), Seq::empty()),
                    d.data@,
                    true,
                )
            },
    {
        let mut sdata: Vec<u8> = Vec::new();
        let mut skv: Vec<(Vec<u8>, KeyValueRange)> = Vec::new();
        let mut ddata: Vec<u8> = Vec::new();
        let mut dkv: Vec<(Vec<u8>, KeyValueRange)> = Vec::new();
        let path: Vec<u8> = Vec::new();
        let _lens = rec_serialize(value, &path, &mut sdata, &mut skv, &mut ddata, &mut dkv);
        proof {
            assert(sdata@ =~= ser(node_view(*value)));
            assert(ddata@ =~= esc(ser(node_view(*value))));
            assert(skv@.skip(0) =~= skv@);
            assert(dkv@.skip(0) =~= dkv@);
        }
        let slen = sdata.len();
        let serialized = SerializedWithKeys { data: sdata, key_values: skv, length: slen };
        if double_serialize {
            let dlen = ddata.len();
            (
                serialized,
                Some(SerializedWithKeys { data: ddata, key_values: dkv, length: dlen }),
            )
        } else {
            (serialized, None)
        }
    }
}

/// The compact serialized bytes of one tree, alone.
pub fn serialize_bytes(value: &JsonNode) -> (r: Vec<u8>)
    requires
        val_wf(node_view(*value)),
    ensures
        r@ == ser(node_view(*value)),
{
    let mut sdata: Vec<u8> = Vec::new();
    let mut skv: Vec<(Vec<u8>, KeyValueRange)> = Vec::new();
    let mut ddata: Vec<u8> = Vec::new();
    let mut dkv: Vec<(Vec<u8>, KeyValueRange)> = Vec::new();
    let path: Vec<u8> = Vec::new();
    let _lens = rec_serialize(value, &path, &mut sdata, &mut skv, &mut ddata, &mut dkv);
    proof {
        assert(sdata@ =~= ser(node_view(*value)));
    }
    sdata
}

} // verus!
