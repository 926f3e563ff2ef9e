//! The document tree: a recursive sum type over the JSON kinds, together
//! with its mathematical model and the insert / merge / lookup semantics.
//!
//! Text is handled as UTF-8 bytes throughout: paths, object keys and string
//! values are byte vectors, so that serialized byte offsets can be spoken of
//! exactly.

use vstd::prelude::*;

verus! {

/// Mathematical model of a JSON document. Objects are insertion-ordered
/// sequences of key/value pairs; numbers carry their decimal text.
pub ghost enum JsonVal {
    Null,
    Bool(bool),
    Number(Seq<u8>),
    String(Seq<u8>),
    Array(Seq<JsonVal>),
    Object(Seq<(Seq<u8>, JsonVal)>),
}

/// Executable JSON document node. Objects keep their keys in insertion
/// order; a number holds its decimal text, emitted verbatim when
/// serializing.
pub enum JsonNode {
    Null,
    Bool(bool),
    Number(Vec<u8>),
    String(Vec<u8>),
    Array(Vec<JsonNode>),
    Object(Vec<(Vec<u8>, JsonNode)>),
}

/// Model of one node.
pub open spec fn node_view(n: JsonNode) -> JsonVal
    decreases n,
{
    match n {
        JsonNode::Null => JsonVal::Null,
        JsonNode::Bool(b) => JsonVal::Bool(b),
        JsonNode::Number(t) => JsonVal::Number(t@),
        JsonNode::String(s) => JsonVal::String(s@),
        JsonNode::Array(items) => JsonVal::Array(items_view(items@)),
        JsonNode::Object(kvs) => JsonVal::Object(kvs_view(kvs@)),
    }
}

/// Model of a sequence of array elements.
pub open spec fn items_view(items: Seq<JsonNode>) -> Seq<JsonVal>
    decreases items,
{
    if items.len() == 0 {
        Seq::empty()
    } else {
        items_view(items.drop_last()).push(node_view(items.last()))
    }
}

/// Model of a sequence of object members.
pub open spec fn kvs_view(kvs: Seq<(Vec<u8>, JsonNode)>) -> Seq<(Seq<u8>, JsonVal)>
    decreases kvs,
{
    if kvs.len() == 0 {
        Seq::empty()
    } else {
        kvs_view(kvs.drop_last()).push((kvs.last().0@, node_view(kvs.last().1)))
    }
}

impl View for JsonNode {
    type V = JsonVal;

    open spec fn view(&self) -> JsonVal {
        node_view(*self)
    }
}

/// `items_view` maps the model pointwise.
pub proof fn lemma_items_view(items: Seq<JsonNode>)
    ensures
        items_view(items).len() == items.len(),
        forall|i: int| 0 <= i < items.len() ==> items_view(items)[i] == node_view(items[i]),
    decreases items.len(),
{
    if items.len() > 0 {
        lemma_items_view(items.drop_last());
    }
}

/// `kvs_view` maps the model pointwise.
pub proof fn lemma_kvs_view(kvs: Seq<(Vec<u8>, JsonNode)>)
    ensures
        kvs_view(kvs).len() == kvs.len(),
        forall|i: int|
            0 <= i < kvs.len() ==> kvs_view(kvs)[i] == (kvs[i].0@, node_view(kvs[i].1)),
    decreases kvs.len(),
{
    if kvs.len() > 0 {
        lemma_kvs_view(kvs.drop_last());
    }
}

/// A byte that is emitted unchanged by JSON string escaping.
pub open spec fn plain_byte(b: u8) -> bool {
    b != 0x22 && b != 0x5c && b >= 0x20
}

/// Keys of an object model, in order.
pub open spec fn keys_unique(kvs: Seq<(Seq<u8>, JsonVal)>) -> bool {
    forall|i: int, j: int| 0 <= i < j < kvs.len() ==> kvs[i].0 != kvs[j].0
}

/// A byte string that escaping leaves unchanged.
pub open spec fn plain_bytes(t: Seq<u8>) -> bool {
    forall|i: int| 0 <= i < t.len() ==> plain_byte(t[i])
}

/// Well-formedness of a document value: object keys are unique and number
/// text is non-empty and free of bytes that string escaping would rewrite,
/// so that it reads the same in every serialized form.
pub open spec fn val_wf(v: JsonVal) -> bool
    decreases v, 1int,
{
    match v {
        JsonVal::Null => true,
        JsonVal::Bool(_) => true,
        JsonVal::Number(t) => t.len() > 0 && plain_bytes(t),
        JsonVal::String(_) => true,
        JsonVal::Array(items) => vals_wf(items),
        JsonVal::Object(kvs) => keys_unique(kvs) && kv_vals_wf(kvs),
    }
}

/// Every element of the sequence is well-formed.
pub open spec fn vals_wf(items: Seq<JsonVal>) -> bool
    decreases items, 0int,
{
    items.len() == 0 || (vals_wf(items.drop_last()) && val_wf(items.last()))
}

/// Every member value of the sequence is well-formed.
pub open spec fn kv_vals_wf(kvs: Seq<(Seq<u8>, JsonVal)>) -> bool
    decreases kvs, 0int,
{
    kvs.len() == 0 || (kv_vals_wf(kvs.drop_last()) && val_wf(kvs.last().1))
}

/// `vals_wf` holds exactly when every element is well-formed.
pub proof fn lemma_vals_wf(items: Seq<JsonVal>)
    ensures
        vals_wf(items) <==> (forall|i: int| 0 <= i < items.len() ==> #[trigger] val_wf(items[i])),
    decreases items.len(),
{
    if items.len() > 0 {
        let d = items.drop_last();
        lemma_vals_wf(d);
        assert(forall|i: int| 0 <= i < items.len() - 1 ==> d[i] == items[i]);
        if vals_wf(items) {
            assert forall|i: int| 0 <= i < items.len() implies #[trigger] val_wf(items[i]) by {
                if i < items.len() - 1 {
                    assert(val_wf(d[i]));
                } else {
                    assert(val_wf(items.last()));
                }
            }
        }
        if forall|i: int| 0 <= i < items.len() ==> #[trigger] val_wf(items[i]) {
            assert forall|i: int| 0 <= i < d.len() implies #[trigger] val_wf(d[i]) by {
                assert(val_wf(items[i]));
            }
            assert(val_wf(items.last())) by {
                assert(val_wf(items[items.len() - 1]));
            }
        }
    }
}

/// `kv_vals_wf` holds exactly when every member value is well-formed.
pub proof fn lemma_kv_vals_wf(kvs: Seq<(Seq<u8>, JsonVal)>)
    ensures
        kv_vals_wf(kvs) <==> (forall|i: int| 0 <= i < kvs.len() ==> #[trigger] val_wf(kvs[i].1)),
    decreases kvs.len(),
{
    if kvs.len() > 0 {
        let d = kvs.drop_last();
        lemma_kv_vals_wf(d);
        assert(forall|i: int| 0 <= i < kvs.len() - 1 ==> d[i] == kvs[i]);
        if kv_vals_wf(kvs) {
            assert forall|i: int| 0 <= i < kvs.len() implies #[trigger] val_wf(kvs[i].1) by {
                if i < kvs.len() - 1 {
                    assert(val_wf(d[i].1));
                } else {
                    assert(val_wf(kvs.last().1));
                }
            }
        }
        if forall|i: int| 0 <= i < kvs.len() ==> #[trigger] val_wf(kvs[i].1) {
            assert forall|i: int| 0 <= i < d.len() implies #[trigger] val_wf(d[i].1) by {
                assert(val_wf(kvs[i].1));
            }
            assert(val_wf(kvs.last().1)) by {
                assert(val_wf(kvs[kvs.len() - 1].1));
            }
        }
    }
}

/// Index of the first member with key `k`, or `-1` when absent.
pub open spec fn obj_index_of(kvs: Seq<(Seq<u8>, JsonVal)>, k: Seq<u8>) -> int
    decreases kvs.len(),
{
    if kvs.len() == 0 {
        -1
    } else if kvs[0].0 == k {
        0
    } else {
        let r = obj_index_of(kvs.drop_first(), k);
        if r == -1 {
            -1
        } else {
            r + 1
        }
    }
}

pub open spec fn obj_has(kvs: Seq<(Seq<u8>, JsonVal)>, k: Seq<u8>) -> bool {
    obj_index_of(kvs, k) >= 0
}

pub open spec fn obj_get(kvs: Seq<(Seq<u8>, JsonVal)>, k: Seq<u8>) -> JsonVal {
    kvs[obj_index_of(kvs, k)].1
}

/// Binding a key: an existing member is updated in place, a new one is
/// appended, preserving insertion order.
pub open spec fn obj_set(kvs: Seq<(Seq<u8>, JsonVal)>, k: Seq<u8>, v: JsonVal) -> Seq<
    (Seq<u8>, JsonVal),
> {
    if obj_has(kvs, k) {
        kvs.update(obj_index_of(kvs, k), (k, v))
    } else {
        kvs.push((k, v))
    }
}

/// Removing a key swaps the last member into its slot, as the underlying
/// insertion-ordered map of the serialization library does.
pub open spec fn obj_remove(kvs: Seq<(Seq<u8>, JsonVal)>, k: Seq<u8>) -> Seq<(Seq<u8>, JsonVal)> {
    if obj_has(kvs, k) {
        kvs.update(obj_index_of(kvs, k), kvs.last()).drop_last()
    } else {
        kvs
    }
}

/// The characterization of `obj_index_of`: it finds the first occurrence.
pub proof fn lemma_obj_index_of(kvs: Seq<(Seq<u8>, JsonVal)>, k: Seq<u8>)
    ensures
        obj_index_of(kvs, k) == -1 ==> forall|i: int| 0 <= i < kvs.len() ==> kvs[i].0 != k,
        obj_index_of(kvs, k) != -1 ==> {
            let r = obj_index_of(kvs, k);
            &&& 0 <= r < kvs.len()
            &&& kvs[r].0 == k
            &&& forall|i: int| 0 <= i < r ==> kvs[i].0 != k
        },
    decreases kvs.len(),
{
    if kvs.len() > 0 && kvs[0].0 != k {
        lemma_obj_index_of(kvs.drop_first(), k);
        assert(forall|i: int| 1 <= i < kvs.len() ==> kvs[i] == kvs.drop_first()[i - 1]);
    }
}

/// Deep merge: objects merge member-wise, a `null` source member deletes
/// the key, anything else replaces the target.
pub open spec fn merge_val(a: JsonVal, b: JsonVal) -> JsonVal
    decreases b, 1int,
{
    match b {
        JsonVal::Object(bk) => match a {
            JsonVal::Object(ak) => JsonVal::Object(merge_obj(ak, bk)),
            _ => b,
        },
        _ => b,
    }
}

/// Folds the members of `bk` into `ak`, in order.
pub open spec fn merge_obj(
    ak: Seq<(Seq<u8>, JsonVal)>,
    bk: Seq<(Seq<u8>, JsonVal)>,
) -> Seq<(Seq<u8>, JsonVal)>
    decreases bk, 0int,
{
    if bk.len() == 0 {
        ak
    } else {
        let k = bk[0].0;
        let v = bk[0].1;
        let ak2 = if v is Null {
            obj_remove(ak, k)
        } else {
            let prev = if obj_has(ak, k) {
                obj_get(ak, k)
            } else {
                JsonVal::Null
            };
            obj_set(ak, k, merge_val(prev, v))
        };
        merge_obj(ak2, bk.drop_first())
    }
}

/// Dotted-path segmentation: the path is split at every `.` byte; a path
/// without dots is a single segment, and each dot starts a new segment, so
/// a trailing dot yields a trailing empty segment.
pub open spec fn path_segments(p: Seq<u8>) -> Seq<Seq<u8>>
    decreases p.len(),
    via path_segments_decreases
{
    let i = first_dot(p);
    if i == -1 {
        seq![p]
    } else {
        seq![p.take(i)] + path_segments(p.skip(i + 1))
    }
}

#[via_fn]
proof fn path_segments_decreases(p: Seq<u8>) {
    lemma_first_dot(p);
}

/// `first_dot` is a position of a dot, before which there is none.
pub proof fn lemma_first_dot(p: Seq<u8>)
    ensures
        first_dot(p) == -1 ==> forall|i: int| 0 <= i < p.len() ==> p[i] != 0x2e,
        first_dot(p) != -1 ==> {
            let r = first_dot(p);
            &&& 0 <= r < p.len()
            &&& p[r] == 0x2e
            &&& forall|i: int| 0 <= i < r ==> p[i] != 0x2e
        },
    decreases p.len(),
{
    if p.len() > 0 && p[0] != 0x2e {
        lemma_first_dot(p.drop_first());
        assert(forall|i: int| 1 <= i < p.len() ==> p[i] == p.drop_first()[i - 1]);
    }
}

/// Index of the first `.` byte, or `-1`.
pub open spec fn first_dot(p: Seq<u8>) -> int
    decreases p.len(),
{
    if p.len() == 0 {
        -1
    } else if p[0] == 0x2e {
        0
    } else {
        let r = first_dot(p.drop_first());
        if r == -1 {
            -1
        } else {
            r + 1
        }
    }
}

/// Joining a parent path with a key or index segment.
pub open spec fn join_path(prefix: Seq<u8>, seg: Seq<u8>) -> Seq<u8> {
    if prefix.len() == 0 {
        seg
    } else {
        prefix + seq![0x2eu8] + seg
    }
}

/// Inserting `value` at a segment list, starting from `node`.
///
/// Intermediate segments auto-vivify object members and coerce non-object
/// members to fresh objects; a trailing empty segment coerces the member to
/// an array and appends; otherwise an absent final member takes the value as
/// it stands, and an occupied one is deep-merged when both sides are objects
/// and replaced outright when not. A multi-segment path into a non-object
/// node is absorbed as a no-op.
pub open spec fn insert_at(node: JsonVal, segs: Seq<Seq<u8>>, value: JsonVal) -> JsonVal
    decreases segs.len(),
{
    if segs.len() == 0 {
        node
    } else if segs.len() == 1 {
        let s = segs[0];
        match node {
            JsonVal::Array(items) => if s.len() == 0 {
                JsonVal::Array(items.push(value))
            } else {
                node
            },
            JsonVal::Object(kvs) => if s.len() > 0 {
                let nv = if obj_has(kvs, s) {
                    merge_val(obj_get(kvs, s), value)
                } else {
                    value
                };
                JsonVal::Object(obj_set(kvs, s, nv))
            } else {
                node
            },
            _ => node,
        }
    } else {
        match node {
            JsonVal::Object(kvs) => {
                let s = segs[0];
                if segs.len() == 2 && segs[1].len() == 0 {
                    let prev_items = if obj_has(kvs, s) && obj_get(kvs, s) is Array {
                        obj_get(kvs, s)->Array_0
                    } else {
                        Seq::empty()
                    };
                    JsonVal::Object(obj_set(kvs, s, JsonVal::Array(prev_items.push(value))))
                } else {
                    let child = if obj_has(kvs, s) && obj_get(kvs, s) is Object {
                        obj_get(kvs, s)
                    } else {
                        JsonVal::Object(Seq::empty())
                    };
                    JsonVal::Object(obj_set(kvs, s, insert_at(child, segs.drop_first(), value)))
                }
            },
            _ => node,
        }
    }
}

/// A canonical decimal index: digits only, no redundant leading zero.
pub open spec fn is_dec_digit(b: u8) -> bool {
    0x30 <= b <= 0x39
}

pub open spec fn is_canon_dec(s: Seq<u8>) -> bool {
    &&& s.len() > 0
    &&& forall|i: int| 0 <= i < s.len() ==> is_dec_digit(s[i])
    &&& (s[0] != 0x30 || s.len() == 1)
}

pub open spec fn dec_digit_val(b: u8) -> nat {
    if is_dec_digit(b) {
        (b - 0x30) as nat
    } else {
        0
    }
}

/// Value of a digit string.
pub open spec fn dec_val(s: Seq<u8>) -> nat
    decreases s.len(),
{
    if s.len() == 0 {
        0
    } else {
        dec_val(s.drop_last()) * 10 + dec_digit_val(s.last())
    }
}

/// Canonical decimal text of a number.
pub open spec fn dec_str(n: nat) -> Seq<u8>
    decreases n,
{
    if n < 10 {
        seq![(0x30 + n) as u8]
    } else {
        dec_str(n / 10).push((0x30 + n % 10) as u8)
    }
}

/// Lookup of a segment list: object segments select keys verbatim, array
/// segments must be canonical decimal indices in range; anything else is
/// not found.
pub open spec fn resolve_at(node: JsonVal, segs: Seq<Seq<u8>>) -> Option<JsonVal>
    decreases segs.len(),
{
    if segs.len() == 0 {
        Some(node)
    } else {
        let s = segs[0];
        match node {
            JsonVal::Object(kvs) => if obj_has(kvs, s) {
                resolve_at(obj_get(kvs, s), segs.drop_first())
            } else {
                None
            },
            JsonVal::Array(items) => if is_canon_dec(s) && dec_val(s) < items.len() {
                resolve_at(items[dec_val(s) as int], segs.drop_first())
            } else {
                None
            },
            _ => None,
        }
    }
}

/// Model of a segment list.
pub open spec fn segs_view(segs: Seq<Vec<u8>>) -> Seq<Seq<u8>> {
    segs.map_values(|s: Vec<u8>| s@)
}

/// Byte-vector equality.
pub fn bytes_eq(a: &Vec<u8>, b: &Vec<u8>) -> (r: bool)
    ensures
        r == (a@ == b@),
{
    if a.len() != b.len() {
        return false;
    }
    let mut i: usize = 0;
    while i < a.len()
        invariant
            a.len() == b.len(),
            i <= a.len(),
            forall|j: int| 0 <= j < i ==> a@[j] == b@[j],
        decreases a.len() - i,
    {
        if a[i] != b[i] {
            return false;
        }
        i += 1;
    }
    proof {
        assert(a@ =~= b@);
    }
    true
}

/// An owned copy of a byte vector.
pub fn clone_bytes(a: &Vec<u8>) -> (r: Vec<u8>)
    ensures
        r@ == a@,
{
    let mut r: Vec<u8> = Vec::new();
    let mut i: usize = 0;
    while i < a.len()
        invariant
            i <= a.len(),
            r@ == a@.take(i as int),
        decreases a.len() - i,
    {
        r.push(a[i]);
        proof {
            assert(a@.take(i as int).push(a@[i as int]) =~= a@.take(i + 1 as int));
        }
        i += 1;
    }
    proof {
        assert(a@.take(a.len() as int) =~= a@);
    }
    r
}

/// Position of the member with key `k`, when there is one.
pub fn obj_find(kvs: &Vec<(Vec<u8>, JsonNode)>, k: &Vec<u8>) -> (r: Option<usize>)
    ensures
        match r {
            Some(i) => i < kvs.len() && obj_index_of(kvs_view(kvs@), k@) == i as int,
            None => obj_index_of(kvs_view(kvs@), k@) == -1,
        },
{
    proof {
        lemma_kvs_view(kvs@);
        lemma_obj_index_of(kvs_view(kvs@), k@);
    }
    let mut i: usize = 0;
    while i < kvs.len()
        invariant
            i <= kvs.len(),
            forall|j: int| 0 <= j < i ==> kvs@[j].0@ != k@,
            kvs_view(kvs@).len() == kvs@.len(),
            forall|j: int|
                0 <= j < kvs@.len() ==> kvs_view(kvs@)[j] == (kvs@[j].0@, node_view(kvs@[j].1)),
            obj_index_of(kvs_view(kvs@), k@) == -1 || {
                let r = obj_index_of(kvs_view(kvs@), k@);
                &&& 0 <= r < kvs@.len()
                &&& kvs_view(kvs@)[r].0 == k@
                &&& forall|j: int| 0 <= j < r ==> kvs_view(kvs@)[j].0 != k@
            },
            obj_index_of(kvs_view(kvs@), k@) == -1 ==> forall|j: int|
                0 <= j < kvs@.len() ==> kvs_view(kvs@)[j].0 != k@,
        decreases kvs.len() - i,
    {
        if bytes_eq(&kvs[i].0, k) {
            proof {
                assert(kvs_view(kvs@)[i as int].0 == k@);
                let r = obj_index_of(kvs_view(kvs@), k@);
                assert(r != -1);
                assert(!(r < i)) by {
                    if 0 <= r < i {
                        assert(kvs@[r].0@ != k@);
                        assert(kvs_view(kvs@)[r].0 == kvs@[r].0@);
                    }
                }
                assert(!(r > i)) by {
                    if r > i {
                        assert(kvs_view(kvs@)[i as int].0 != k@);
                    }
                }
            }
            return Some(i);
        }
        i += 1;
    }
    None
}

/// Position of the first dot at or after `start`.
fn find_dot(path: &Vec<u8>, start: usize) -> (r: Option<usize>)
    requires
        start <= path.len(),
    ensures
        match r {
            Some(d) => start <= d < path.len() && first_dot(path@.skip(start as int)) == d - start,
            None => first_dot(path@.skip(start as int)) == -1,
        },
{
    let mut i: usize = start;
    while i < path.len()
        invariant
            start <= i <= path.len(),
            forall|j: int| start <= j < i ==> path@[j] != 0x2e,
        decreases path.len() - i,
    {
        if path[i] == 0x2e {
            proof {
                let p = path@.skip(start as int);
                lemma_first_dot(p);
                assert(p[i - start] == 0x2e);
                let r = first_dot(p);
                assert(r != -1);
                assert(forall|j: int| 0 <= j < p.len() ==> p[j] == path@[start + j]);
                assert(!(r < i - start)) by {
                    if 0 <= r < i - start {
                        assert(path@[start + r] != 0x2e);
                    }
                }
                assert(!(r > i - start)) by {
                    if r > i - start {
                        assert(p[i - start] != 0x2e);
                    }
                }
            }
            return Some(i);
        }
        i += 1;
    }
    proof {
        let p = path@.skip(start as int);
        lemma_first_dot(p);
        assert(forall|j: int| 0 <= j < p.len() ==> p[j] == path@[start + j]);
        if first_dot(p) != -1 {
            assert(p[first_dot(p)] == 0x2e);
        }
    }
    None
}

/// The tail of the segment list, from byte `start` on.
fn split_path_from(path: &Vec<u8>, start: usize) -> (r: Vec<Vec<u8>>)
    requires
        start <= path.len(),
    ensures
        segs_view(r@) == path_segments(path@.skip(start as int)),
    decreases path.len() - start,
{
    match find_dot(path, start) {
        None => {
            let seg = vstd::slice::slice_to_vec(
                vstd::slice::slice_subrange(path.as_slice(), start, path.len()),
            );
            let mut r: Vec<Vec<u8>> = Vec::new();
            r.push(seg);
            proof {
                assert(path@.subrange(start as int, path@.len() as int) =~= path@.skip(
                    start as int,
                ));
                assert(segs_view(r@) =~= seq![path@.skip(start as int)]);
            }
            r
        },
        Some(d) => {
            let seg = vstd::slice::slice_to_vec(
                vstd::slice::slice_subrange(path.as_slice(), start, d),
            );
            let mut rest = split_path_from(path, d + 1);
            let mut r: Vec<Vec<u8>> = Vec::new();
            r.push(seg);
            r.append(&mut rest);
            proof {
                let p = path@.skip(start as int);
                let i = d - start;
                assert(p.take(i) =~= path@.subrange(start as int, d as int));
                assert(p.skip(i + 1) =~= path@.skip(d + 1 as int));
                assert(segs_view(r@) =~= seq![p.take(i)] + path_segments(p.skip(i + 1)));
            }
            r
        },
    }
}

/// Decomposition of a dotted path into its segments.
pub fn split_path(path: &Vec<u8>) -> (r: Vec<Vec<u8>>)
    ensures
        segs_view(r@) == path_segments(path@),
{
    let r = split_path_from(path, 0);
    proof {
        assert(path@.skip(0) =~= path@);
    }
    r
}

/// Appends the canonical decimal text of `n`.
pub fn push_dec(out: &mut Vec<u8>, n: usize)
    ensures
        final(out)@ == old(out)@ + dec_str(n as nat),
    decreases n,
{
    if n < 10 {
        out.push(0x30 + n as u8);
        proof {
            assert(out@ =~= old(out)@ + dec_str(n as nat));
        }
    } else {
        push_dec(out, n / 10);
        out.push(0x30 + (n % 10) as u8);
        proof {
            assert(out@ =~= old(out)@ + dec_str(n as nat));
        }
    }
}

/// Parses a segment as a canonical decimal array index below `len`.
pub fn parse_index(seg: &Vec<u8>, len: usize) -> (r: Option<usize>)
    ensures
        match r {
            Some(v) => is_canon_dec(seg@) && dec_val(seg@) == v && v < len,
            None => !(is_canon_dec(seg@) && dec_val(seg@) < len),
        },
{
    if seg.len() == 0 {
        return None;
    }
    if seg[0] == 0x30 && seg.len() > 1 {
        return None;
    }
    let mut value: usize = 0;
    let mut big = false;
    let mut i: usize = 0;
    while i < seg.len()
        invariant
            i <= seg.len(),
            forall|j: int| 0 <= j < i ==> is_dec_digit(seg@[j]),
            !big ==> value == dec_val(seg@.take(i as int)),
            big ==> dec_val(seg@.take(i as int)) >= len,
        decreases seg.len() - i,
    {
        let b = seg[i];
        if b < 0x30 || b > 0x39 {
            return None;
        }
        proof {
            assert(seg@.take(i + 1 as int).drop_last() =~= seg@.take(i as int));
            assert(seg@.take(i + 1 as int).last() == seg@[i as int]);
        }
        let d = (b - 0x30) as usize;
        if big {
        } else {
            match value.checked_mul(10) {
                Some(m) => match m.checked_add(d) {
                    Some(s) => {
                        value = s;
                    },
                    None => {
                        big = true;
                    },
                },
                None => {
                    big = true;
                },
            }
        }
        i += 1;
    }
    proof {
        assert(seg@.take(seg@.len() as int) =~= seg@);
    }
    if big {
        None
    } else if value < len {
        Some(value)
    } else {
        None
    }
}

/// Deep merge of `b` into `a`, consuming both.
#[verifier::loop_isolation(false)]
pub fn merge_node(a: JsonNode, b: JsonNode) -> (r: JsonNode)
    ensures
        r@ == merge_val(a@, b@),
    decreases b,
{
    let ghost b0 = b;
    match b {
        JsonNode::Object(mut bk) => match a {
            JsonNode::Object(mut ak) => {
                let ghost bkvec0 = bk@;
                let ghost av0 = kvs_view(ak@);
                let ghost bv0 = kvs_view(bk@);
                while bk.len() > 0
                    invariant
                        b0 == JsonNode::Object(b0->Object_0),
                        b0->Object_0@ == bkvec0,
                        bk@.len() <= bkvec0.len(),
                        bk@ =~= bkvec0.skip(bkvec0.len() - bk@.len()),
                        merge_obj(av0, bv0) == merge_obj(kvs_view(ak@), kvs_view(bk@)),
                    decreases bk.len(),
                {
                    let ghost bk_pre = bk@;
                    let ghost ak_pre = ak@;
                    let (k, v) = bk.remove(0);
                    let ghost vv = node_view(v);
                    proof {
                        let jj = bkvec0.len() - bk_pre.len();
                        assert(0 <= jj < bkvec0.len());
                        assert(v == bkvec0[jj].1);
                        assert(decreases_to!(b0 => b0->Object_0));
                        assert(decreases_to!(b0->Object_0 => bkvec0));
                        assert(decreases_to!(bkvec0 => bkvec0[jj]));
                        assert(decreases_to!(bkvec0[jj] => bkvec0[jj].1));
                        assert(decreases_to!(b0 => v));
                        lemma_kvs_view(bk_pre);
                        lemma_kvs_view(bk@);
                        assert(kvs_view(bk_pre)[0] == (k@, vv));
                        assert(kvs_view(bk@) =~= kvs_view(bk_pre).drop_first());
                        assert(bk@ =~= bkvec0.skip(bkvec0.len() - bk@.len()));
                    }
                    if matches!(v, JsonNode::Null) {
                        match obj_find(&ak, &k) {
                            Some(idx) => {
                                let _removed = ak.swap_remove(idx);
                                proof {
                                    lemma_kvs_view(ak_pre);
                                    lemma_kvs_view(ak@);
                                    assert(kvs_view(ak@) =~= obj_remove(kvs_view(ak_pre), k@));
                                }
                            },
                            None => {},
                        }
                    } else {
                        match obj_find(&ak, &k) {
                            Some(idx) => {
                                let pair = ak.remove(idx);
                                let ghost prev = node_view(pair.1);
                                let merged = merge_node(pair.1, v);
                                let ghost ak_mid = ak@;
                                ak.insert(idx, (pair.0, merged));
                                proof {
                                    assert(ak@ =~= ak_pre.update(
                                        idx as int,
                                        (pair.0, merged),
                                    ));
                                    lemma_kvs_view(ak_pre);
                                    lemma_kvs_view(ak@);
                                    lemma_obj_index_of(kvs_view(ak_pre), k@);
                                    assert(kvs_view(ak_pre)[idx as int].0 == k@);
                                    assert(pair.0@ == k@);
                                    assert(obj_get(kvs_view(ak_pre), k@) == prev);
                                    assert(kvs_view(ak@) =~= obj_set(
                                        kvs_view(ak_pre),
                                        k@,
                                        merge_val(prev, vv),
                                    ));
                                }
                            },
                            None => {
                                proof {
                                    assert(merge_val(JsonVal::Null, vv) == vv);
                                }
                                ak.push((k, v));
                                proof {
                                    lemma_kvs_view(ak_pre);
                                    lemma_kvs_view(ak@);
                                    assert(kvs_view(ak@) =~= obj_set(
                                        kvs_view(ak_pre),
                                        k@,
                                        merge_val(JsonVal::Null, vv),
                                    ));
                                }
                            },
                        }
                    }
                }
                proof {
                    assert(kvs_view(bk@).len() == 0) by {
                        lemma_kvs_view(bk@);
                    }
                    assert(merge_obj(kvs_view(ak@), kvs_view(bk@)) == kvs_view(ak@));
                }
                JsonNode::Object(ak)
            },
            _ => JsonNode::Object(bk),
        },
        _ => b,
    }
}

/// Inserting `value` at the segments `segs[i..]`, consuming `node`.
pub fn insert_at_node(node: JsonNode, segs: &Vec<Vec<u8>>, i: usize, value: JsonNode) -> (r:
    JsonNode)
    requires
        i <= segs@.len(),
    ensures
        r@ == insert_at(node@, segs_view(segs@).skip(i as int), value@),
    decreases segs@.len() - i,
{
    let ghost sv = segs_view(segs@).skip(i as int);
    if i == segs.len() {
        return node;
    }
    let seg = &segs[i];
    proof {
        assert(sv[0] == seg@);
    }
    if i + 1 == segs.len() {
        // the final segment: append for an array, set-or-merge for an object
        match node {
            JsonNode::Array(mut items) => {
                if seg.len() == 0 {
                    let ghost items_pre = items@;
                    items.push(value);
                    proof {
                        lemma_items_view(items_pre);
                        lemma_items_view(items@);
                        assert(items_view(items@) =~= items_view(items_pre).push(
                            items_view(items@).last(),
                        ));
                    }
                    JsonNode::Array(items)
                } else {
                    JsonNode::Array(items)
                }
            },
            JsonNode::Object(mut kvs) => {
                if seg.len() > 0 {
                    let ghost kvs_pre = kvs@;
                    match obj_find(&kvs, seg) {
                        Some(idx) => {
                            let pair = kvs.remove(idx);
                            let ghost prev = node_view(pair.1);
                            let merged = merge_node(pair.1, value);
                            kvs.insert(idx, (pair.0, merged));
                            proof {
                                assert(kvs@ =~= kvs_pre.update(idx as int, (pair.0, merged)));
                                lemma_kvs_view(kvs_pre);
                                lemma_kvs_view(kvs@);
                                lemma_obj_index_of(kvs_view(kvs_pre), seg@);
                                assert(pair.0@ == seg@);
                                assert(obj_get(kvs_view(kvs_pre), seg@) == prev);
                                assert(kvs_view(kvs@) =~= obj_set(
                                    kvs_view(kvs_pre),
                                    seg@,
                                    merge_val(prev, value@),
                                ));
                            }
                            JsonNode::Object(kvs)
                        },
                        None => {
                            kvs.push((clone_bytes(seg), value));
                            proof {
                                lemma_kvs_view(kvs_pre);
                                lemma_kvs_view(kvs@);
                                assert(kvs_view(kvs@) =~= obj_set(
                                    kvs_view(kvs_pre),
                                    seg@,
                                    node_view(kvs@.last().1),
                                ));
                            }
                            JsonNode::Object(kvs)
                        },
                    }
                } else {
                    JsonNode::Object(kvs)
                }
            },
            other => other,
        }
    } else {
        match node {
            JsonNode::Object(mut kvs) => {
                let ghost kvs_pre = kvs@;
                let trailing = i + 2 == segs.len() && segs[i + 1].len() == 0;
                proof {
                    assert(trailing == (sv.len() == 2 && sv[1].len() == 0));
                }
                if trailing {
                    // trailing-dot: coerce the member to an array and append
                    match obj_find(&kvs, seg) {
                        Some(idx) => {
                            let pair = kvs.remove(idx);
                            let ghost prev = node_view(pair.1);
                            let mut items = match pair.1 {
                                JsonNode::Array(items) => items,
                                _ => Vec::new(),
                            };
                            let ghost items_pre = items@;
                            items.push(value);
                            kvs.insert(idx, (pair.0, JsonNode::Array(items)));
                            proof {
                                assert(kvs@ =~= kvs_pre.update(
                                    idx as int,
                                    (pair.0, JsonNode::Array(items)),
                                ));
                                lemma_kvs_view(kvs_pre);
                                lemma_kvs_view(kvs@);
                                lemma_obj_index_of(kvs_view(kvs_pre), seg@);
                                assert(pair.0@ == seg@);
                                lemma_items_view(items_pre);
                                lemma_items_view(items@);
                                let spec_items = if obj_has(kvs_view(kvs_pre), seg@) && obj_get(
                                    kvs_view(kvs_pre),
                                    seg@,
                                ) is Array {
                                    obj_get(kvs_view(kvs_pre), seg@)->Array_0
                                } else {
                                    Seq::empty()
                                };
                                assert(items_view(items_pre) =~= spec_items);
                                assert(items_view(items@) =~= spec_items.push(value@));
                                assert(kvs_view(kvs@) =~= obj_set(
                                    kvs_view(kvs_pre),
                                    seg@,
                                    JsonVal::Array(spec_items.push(value@)),
                                ));
                            }
                            JsonNode::Object(kvs)
                        },
                        None => {
                            let mut items: Vec<JsonNode> = Vec::new();
                            items.push(value);
                            kvs.push((clone_bytes(seg), JsonNode::Array(items)));
                            proof {
                                lemma_kvs_view(kvs_pre);
                                lemma_kvs_view(kvs@);
                                lemma_items_view(items@);
                                assert(items_view(items@) =~= Seq::<JsonVal>::empty().push(
                                    value@,
                                ));
                                assert(kvs_view(kvs@) =~= obj_set(
                                    kvs_view(kvs_pre),
                                    seg@,
                                    JsonVal::Array(Seq::<JsonVal>::empty().push(value@)),
                                ));
                            }
                            JsonNode::Object(kvs)
                        },
                    }
                } else {
                    // an intermediate segment: descend into an object member,
                    // coercing anything else to a fresh object
                    match obj_find(&kvs, seg) {
                        Some(idx) => {
                            let pair = kvs.remove(idx);
                            let ghost prev = node_view(pair.1);
                            let child = match pair.1 {
                                JsonNode::Object(ck) => JsonNode::Object(ck),
                                _ => JsonNode::Object(Vec::new()),
                            };
                            proof {
                                let spec_child = if obj_has(kvs_view(kvs_pre), seg@) && obj_get(
                                    kvs_view(kvs_pre),
                                    seg@,
                                ) is Object {
                                    obj_get(kvs_view(kvs_pre), seg@)
                                } else {
                                    JsonVal::Object(Seq::empty())
                                };
                                lemma_kvs_view(kvs_pre);
                                lemma_obj_index_of(kvs_view(kvs_pre), seg@);
                                assert(obj_get(kvs_view(kvs_pre), seg@) == prev);
                                assert(kvs_view(Seq::<(Vec<u8>, JsonNode)>::empty()).len() == 0);
                                assert(child@ == spec_child);
                            }
                            let newchild = insert_at_node(child, segs, i + 1, value);
                            kvs.insert(idx, (pair.0, newchild));
                            proof {
                                assert(kvs@ =~= kvs_pre.update(idx as int, (pair.0, newchild)));
                                lemma_kvs_view(kvs_pre);
                                lemma_kvs_view(kvs@);
                                lemma_obj_index_of(kvs_view(kvs_pre), seg@);
                                assert(pair.0@ == seg@);
                                assert(segs_view(segs@).skip(i + 1 as int) =~= sv.drop_first());
                                assert(kvs_view(kvs@) =~= obj_set(
                                    kvs_view(kvs_pre),
                                    seg@,
                                    newchild@,
                                ));
                            }
                            JsonNode::Object(kvs)
                        },
                        None => {
                            let newchild = insert_at_node(
                                JsonNode::Object(Vec::new()),
                                segs,
                                i + 1,
                                value,
                            );
                            kvs.push((clone_bytes(seg), newchild));
                            proof {
                                lemma_kvs_view(kvs_pre);
                                lemma_kvs_view(kvs@);
                                assert(kvs_view(Seq::<(Vec<u8>, JsonNode)>::empty()).len() == 0);
                                assert(segs_view(segs@).skip(i + 1 as int) =~= sv.drop_first());
                                assert(kvs_view(kvs@) =~= obj_set(
                                    kvs_view(kvs_pre),
                                    seg@,
                                    newchild@,
                                ));
                            }
                            JsonNode::Object(kvs)
                        },
                    }
                }
            },
            other => other,
        }
    }
}

/// Lookup of the node addressed by the segments `segs[i..]`.
pub fn resolve_node<'a>(node: &'a JsonNode, segs: &Vec<Vec<u8>>, i: usize) -> (r: Option<
    &'a JsonNode,
>)
    requires
        i <= segs@.len(),
    ensures
        match r {
            Some(n) => resolve_at(node@, segs_view(segs@).skip(i as int)) == Some(n@),
            None => resolve_at(node@, segs_view(segs@).skip(i as int)) is None,
        },
    decreases segs@.len() - i,
{
    let ghost sv = segs_view(segs@).skip(i as int);
    if i == segs.len() {
        return Some(node);
    }
    let seg = &segs[i];
    proof {
        assert(sv[0] == seg@);
        assert(segs_view(segs@).skip(i + 1 as int) =~= sv.drop_first());
    }
    match node {
        JsonNode::Object(kvs) => match obj_find(kvs, seg) {
            Some(idx) => {
                proof {
                    lemma_kvs_view(kvs@);
                    assert(obj_get(kvs_view(kvs@), seg@) == node_view(kvs@[idx as int].1));
                }
                resolve_node(&kvs[idx].1, segs, i + 1)
            },
            None => None,
        },
        JsonNode::Array(items) => match parse_index(seg, items.len()) {
            Some(idx) => {
                proof {
                    lemma_items_view(items@);
                }
                resolve_node(&items[idx], segs, i + 1)
            },
            None => {
                proof {
                    lemma_items_view(items@);
                }
                None
            },
        },
        _ => None,
    }
}

/// What object well-formedness gives member-wise.
pub proof fn lemma_obj_wf_unfold(kvs: Seq<(Seq<u8>, JsonVal)>)
    requires
        val_wf(JsonVal::Object(kvs)),
    ensures
        keys_unique(kvs),
        forall|i: int| 0 <= i < kvs.len() ==> #[trigger] val_wf(kvs[i].1),
{
    lemma_kv_vals_wf(kvs);
}

/// What array well-formedness gives element-wise.
pub proof fn lemma_arr_wf_unfold(items: Seq<JsonVal>)
    requires
        val_wf(JsonVal::Array(items)),
    ensures
        forall|i: int| 0 <= i < items.len() ==> #[trigger] val_wf(items[i]),
{
    lemma_vals_wf(items);
}

/// Binding a key preserves object well-formedness.
pub proof fn lemma_obj_set_wf(kvs: Seq<(Seq<u8>, JsonVal)>, k: Seq<u8>, v: JsonVal)
    requires
        val_wf(JsonVal::Object(kvs)),
        val_wf(v),
    ensures
        val_wf(JsonVal::Object(obj_set(kvs, k, v))),
{
    lemma_obj_index_of(kvs, k);
    lemma_obj_wf_unfold(kvs);
    let r = obj_set(kvs, k, v);
    assert(keys_unique(r));
    assert forall|i: int| 0 <= i < r.len() implies #[trigger] val_wf(r[i].1) by {
        if r[i] != (k, v) {
            assert(r[i] == kvs[i]);
            assert(val_wf(kvs[i].1));
        }
    }
    lemma_kv_vals_wf(r);
}

/// Removing a key preserves object well-formedness.
pub proof fn lemma_obj_remove_wf(kvs: Seq<(Seq<u8>, JsonVal)>, k: Seq<u8>)
    requires
        val_wf(JsonVal::Object(kvs)),
    ensures
        val_wf(JsonVal::Object(obj_remove(kvs, k))),
{
    lemma_obj_index_of(kvs, k);
    lemma_obj_wf_unfold(kvs);
    let r = obj_remove(kvs, k);
    if obj_has(kvs, k) {
        let x = obj_index_of(kvs, k);
        assert forall|i: int| 0 <= i < r.len() implies #[trigger] val_wf(r[i].1) by {
            if i == x {
                assert(r[i] == kvs[kvs.len() - 1]);
                assert(val_wf(kvs[kvs.len() - 1].1));
            } else {
                assert(r[i] == kvs[i]);
                assert(val_wf(kvs[i].1));
            }
        }
        assert(keys_unique(r));
        lemma_kv_vals_wf(r);
    }
}

/// Merging two well-formed values yields a well-formed value.
pub proof fn lemma_merge_wf(a: JsonVal, b: JsonVal)
    requires
        val_wf(a),
        val_wf(b),
    ensures
        val_wf(merge_val(a, b)),
    decreases b, 1int,
{
    if a is Object && b is Object {
        let bk = b->Object_0;
        assert(b == JsonVal::Object(bk));
        lemma_obj_wf_unfold(bk);
        assert forall|i: int| 0 <= i < bk.len() implies #[trigger] (decreases_to!(b => bk[i].1))
            by {
            assert(decreases_to!(b => bk));
            assert(decreases_to!(bk => bk[i]));
            assert(decreases_to!(bk[i] => bk[i].1));
        }
        lemma_merge_obj_wf(a->Object_0, b->Object_0, b);
    }
}

/// Folding well-formed members into a well-formed object keeps it so.
///
/// `b` bounds the recursion: every member value of `bk` is a part of it.
proof fn lemma_merge_obj_wf(ak: Seq<(Seq<u8>, JsonVal)>, bk: Seq<(Seq<u8>, JsonVal)>, b: JsonVal)
    requires
        val_wf(JsonVal::Object(ak)),
        forall|i: int| 0 <= i < bk.len() ==> #[trigger] val_wf(bk[i].1),
        forall|i: int| 0 <= i < bk.len() ==> #[trigger] (decreases_to!(b => bk[i].1)),
    ensures
        val_wf(JsonVal::Object(merge_obj(ak, bk))),
    decreases b, 0int, bk.len(),
{
    if bk.len() > 0 {
        lemma_obj_wf_unfold(ak);
        let k = bk[0].0;
        let v = bk[0].1;
        assert(val_wf(v)) by {
            assert(val_wf(bk[0].1));
        }
        assert(decreases_to!(b => v)) by {
            assert(decreases_to!(b => bk[0].1));
        }
        let ak2 = if v is Null {
            obj_remove(ak, k)
        } else {
            let prev = if obj_has(ak, k) {
                obj_get(ak, k)
            } else {
                JsonVal::Null
            };
            obj_set(ak, k, merge_val(prev, v))
        };
        if v is Null {
            lemma_obj_remove_wf(ak, k);
        } else {
            let prev = if obj_has(ak, k) {
                obj_get(ak, k)
            } else {
                JsonVal::Null
            };
            lemma_obj_index_of(ak, k);
            assert(val_wf(prev)) by {
                if obj_has(ak, k) {
                    assert(val_wf(ak[obj_index_of(ak, k)].1));
                }
            }
            lemma_merge_wf(prev, v);
            lemma_obj_set_wf(ak, k, merge_val(prev, v));
        }
        let bk2 = bk.drop_first();
        assert forall|i: int| 0 <= i < bk2.len() implies #[trigger] val_wf(bk2[i].1) by {
            assert(bk2[i] == bk[i + 1]);
            assert(val_wf(bk[i + 1].1));
        }
        assert forall|i: int| 0 <= i < bk2.len() implies #[trigger] (decreases_to!(
            b => bk2[i].1,
        )) by {
            assert(bk2[i] == bk[i + 1]);
            assert(decreases_to!(b => bk[i + 1].1));
        }
        lemma_merge_obj_wf(ak2, bk2, b);
    }
}

/// Inserting a well-formed value keeps the document well-formed.
pub proof fn lemma_insert_wf(node: JsonVal, segs: Seq<Seq<u8>>, value: JsonVal)
    requires
        val_wf(node),
        val_wf(value),
    ensures
        val_wf(insert_at(node, segs, value)),
    decreases segs.len(),
{
    if segs.len() == 0 {
    } else if segs.len() == 1 {
        let s = segs[0];
        match node {
            JsonVal::Array(items) => {
                if s.len() == 0 {
                    lemma_arr_wf_unfold(items);
                    let r = items.push(value);
                    assert forall|i: int| 0 <= i < r.len() implies #[trigger] val_wf(r[i]) by {
                        if i < items.len() {
                            assert(r[i] == items[i]);
                            assert(val_wf(items[i]));
                        }
                    }
                    lemma_vals_wf(r);
                }
            },
            JsonVal::Object(kvs) => {
                if s.len() > 0 {
                    lemma_obj_wf_unfold(kvs);
                    lemma_obj_index_of(kvs, s);
                    if obj_has(kvs, s) {
                        assert(val_wf(obj_get(kvs, s))) by {
                            assert(val_wf(kvs[obj_index_of(kvs, s)].1));
                        }
                        lemma_merge_wf(obj_get(kvs, s), value);
                        lemma_obj_set_wf(kvs, s, merge_val(obj_get(kvs, s), value));
                    } else {
                        lemma_obj_set_wf(kvs, s, value);
                    }
                }
            },
            _ => {},
        }
    } else {
        match node {
            JsonVal::Object(kvs) => {
                let s = segs[0];
                lemma_obj_index_of(kvs, s);
                lemma_obj_wf_unfold(kvs);
                assert(obj_has(kvs, s) ==> val_wf(obj_get(kvs, s))) by {
                    if obj_has(kvs, s) {
                        assert(val_wf(kvs[obj_index_of(kvs, s)].1));
                    }
                }
                if segs.len() == 2 && segs[1].len() == 0 {
                    let prev_items = if obj_has(kvs, s) && obj_get(kvs, s) is Array {
                        obj_get(kvs, s)->Array_0
                    } else {
                        Seq::empty()
                    };
                    let r = prev_items.push(value);
                    if obj_has(kvs, s) && obj_get(kvs, s) is Array {
                        lemma_arr_wf_unfold(prev_items);
                    }
                    assert forall|i: int| 0 <= i < r.len() implies #[trigger] val_wf(r[i]) by {
                        if i < prev_items.len() {
                            assert(r[i] == prev_items[i]);
                            assert(val_wf(prev_items[i]));
                        }
                    }
                    lemma_vals_wf(r);
                    lemma_obj_set_wf(kvs, s, JsonVal::Array(r));
                } else {
                    let child = if obj_has(kvs, s) && obj_get(kvs, s) is Object {
                        obj_get(kvs, s)
                    } else {
                        JsonVal::Object(Seq::empty())
                    };
                    assert(val_wf(child));
                    lemma_insert_wf(child, segs.drop_first(), value);
                    lemma_obj_set_wf(kvs, s, insert_at(child, segs.drop_first(), value));
                }
            },
            _ => {},
        }
    }
}

/// Binding a key leaves every other key's binding as it was.
pub proof fn lemma_obj_set_frame(kvs: Seq<(Seq<u8>, JsonVal)>, k: Seq<u8>, v: JsonVal, k2: Seq<u8>)
    requires
        k2 != k,
    ensures
        obj_index_of(obj_set(kvs, k, v), k2) == obj_index_of(kvs, k2),
        obj_has(kvs, k2) ==> obj_get(obj_set(kvs, k, v), k2) == obj_get(kvs, k2),
{
    let set = obj_set(kvs, k, v);
    lemma_obj_index_of(kvs, k);
    lemma_obj_index_of(kvs, k2);
    lemma_obj_index_of(set, k2);
    let r1 = obj_index_of(set, k2);
    let r2 = obj_index_of(kvs, k2);
    assert(forall|j: int| 0 <= j < kvs.len() ==> set[j].0 == kvs[j].0);
    if r2 == -1 {
        assert(r1 == -1) by {
            if r1 != -1 {
                assert(set[r1].0 == k2);
                if r1 < kvs.len() {
                    assert(kvs[r1].0 != k2);
                } else {
                    assert(set[r1].0 == k);
                }
            }
        }
    } else {
        assert(set[r2].0 == k2);
        assert(r1 != -1);
        assert(!(r1 < r2)) by {
            if 0 <= r1 < r2 {
                assert(kvs[r1].0 != k2);
                assert(set[r1].0 == kvs[r1].0);
            }
        }
        assert(!(r1 > r2)) by {
            if r1 > r2 {
                assert(set[r2].0 != k2);
            }
        }
        assert(set[r2] == kvs[r2]);
    }
}

/// Binding a key makes that key's binding the bound value.
pub proof fn lemma_obj_set_get(kvs: Seq<(Seq<u8>, JsonVal)>, k: Seq<u8>, v: JsonVal)
    ensures
        obj_has(obj_set(kvs, k, v), k),
        obj_get(obj_set(kvs, k, v), k) == v,
{
    let set = obj_set(kvs, k, v);
    lemma_obj_index_of(kvs, k);
    lemma_obj_index_of(set, k);
    let r1 = obj_index_of(set, k);
    if obj_has(kvs, k) {
        let x = obj_index_of(kvs, k);
        assert(set[x] == (k, v));
        assert(r1 != -1);
        assert(!(r1 < x)) by {
            if 0 <= r1 < x {
                assert(kvs[r1].0 != k);
                assert(set[r1].0 == kvs[r1].0);
            }
        }
        assert(!(r1 > x)) by {
            if r1 > x {
                assert(set[x].0 != k);
            }
        }
    } else {
        assert(set[kvs.len() as int] == (k, v));
        assert(r1 != -1);
        assert(!(r1 < kvs.len())) by {
            if 0 <= r1 < kvs.len() {
                assert(kvs[r1].0 != k);
                assert(set[r1].0 == kvs[r1].0);
            }
        }
        assert(r1 == kvs.len());
    }
}

/// Auto-vivification: inserting at a path of non-empty segments whose
/// first segment is absent from the (object) node creates a fresh object
/// at every intermediate segment, places the value itself at the full
/// path, and leaves every other top-level member untouched.
pub proof fn lemma_insert_fresh(node: JsonVal, segs: Seq<Seq<u8>>, value: JsonVal)
    requires
        node is Object,
        segs.len() >= 1,
        forall|i: int| 0 <= i < segs.len() ==> (#[trigger] segs[i]).len() > 0,
        !obj_has(node->Object_0, segs[0]),
    ensures
        insert_at(node, segs, value) is Object,
        resolve_at(insert_at(node, segs, value), segs) == Some(value),
        forall|k: int|
            0 <= k < segs.len() ==> ((#[trigger] resolve_at(
                insert_at(node, segs, value),
                segs.take(k),
            )) matches Some(w) && w is Object),
        forall|other: Seq<u8>|
            other != segs[0] ==> #[trigger] obj_index_of(
                insert_at(node, segs, value)->Object_0,
                other,
            ) == obj_index_of(node->Object_0, other),
        forall|other: Seq<u8>|
            other != segs[0] && obj_has(node->Object_0, other) ==> #[trigger] obj_get(
                insert_at(node, segs, value)->Object_0,
                other,
            ) == obj_get(node->Object_0, other),
    decreases segs.len(),
{
    let kvs = node->Object_0;
    let s = segs[0];
    let result = insert_at(node, segs, value);
    assert(s.len() > 0);
    if segs.len() == 1 {
        assert(result == JsonVal::Object(obj_set(kvs, s, value)));
        lemma_obj_set_get(kvs, s, value);
        assert(segs.drop_first().len() == 0);
        assert(resolve_at(value, segs.drop_first()) == Some(value));
    } else {
        assert(segs[1].len() > 0);
        let rest = segs.drop_first();
        assert(forall|i: int| 0 <= i < rest.len() ==> rest[i] == segs[i + 1]);
        let fresh = JsonVal::Object(Seq::<(Seq<u8>, JsonVal)>::empty());
        assert(!(segs.len() == 2 && segs[1].len() == 0));
        assert(result == JsonVal::Object(obj_set(kvs, s, insert_at(fresh, rest, value))));
        assert(!obj_has(fresh->Object_0, rest[0]));
        lemma_insert_fresh(fresh, rest, value);
        let newchild = insert_at(fresh, rest, value);
        lemma_obj_set_get(kvs, s, newchild);
        assert(resolve_at(result, segs) == resolve_at(newchild, rest));
    }
    assert forall|k: int|
        0 <= k < segs.len() implies ((#[trigger] resolve_at(result, segs.take(k))) matches Some(
        w,
    ) && w is Object) by {
        if k == 0 {
            assert(segs.take(0) =~= Seq::<Seq<u8>>::empty());
            assert(resolve_at(result, segs.take(0)) == Some(result));
        } else {
            let tk = segs.take(k);
            assert(tk[0] == s);
            let rest = segs.drop_first();
            let fresh = JsonVal::Object(Seq::<(Seq<u8>, JsonVal)>::empty());
            let newchild = insert_at(fresh, rest, value);
            lemma_obj_set_get(kvs, s, newchild);
            assert(tk.drop_first() =~= rest.take(k - 1));
            assert(resolve_at(result, tk) == resolve_at(newchild, rest.take(k - 1)));
            assert(resolve_at(newchild, rest.take(k - 1)) matches Some(w) && w is Object);
        }
    }
    assert forall|other: Seq<u8>|
        other != segs[0] implies #[trigger] obj_index_of(result->Object_0, other) == obj_index_of(
        kvs,
        other,
    ) && (obj_has(kvs, other) ==> obj_get(result->Object_0, other) == obj_get(kvs, other)) by {
        if segs.len() == 1 {
            lemma_obj_set_frame(kvs, s, value, other);
        } else {
            let rest = segs.drop_first();
            let fresh = JsonVal::Object(Seq::<(Seq<u8>, JsonVal)>::empty());
            lemma_obj_set_frame(kvs, s, insert_at(fresh, rest, value), other);
        }
    }
    assert forall|other: Seq<u8>|
        other != segs[0] && obj_has(kvs, other) implies #[trigger] obj_get(
        result->Object_0,
        other,
    ) == obj_get(kvs, other) by {
        assert(obj_index_of(result->Object_0, other) == obj_index_of(kvs, other));
    }
}

/// Inserting never changes the kind of an object node.
pub proof fn lemma_insert_at_object(node: JsonVal, segs: Seq<Seq<u8>>, value: JsonVal)
    requires
        node is Object,
    ensures
        insert_at(node, segs, value) is Object,
{
}

} // verus!
