//! The orchestrator: one document tree plus one lazily built substitution
//! generation. Any mutation discards the generation; the next substitution
//! request serializes the current tree, registers `{$path}` / `{$$path}`
//! patterns for every recorded path, and streams the replacement.

use vstd::prelude::*;

use crate::engines::{
    ac_build_ok, ac_new, ac_stream_replace, groups_view, patterns_view, regex_match_named,
    captures_of, regex_ok,
};
use crate::error::JsonDataCacheError;
use crate::json_serializer::{
    entries_ok, esc, index_entries, ser, slice_of, JsonSerializer, SerializedWithKeys,
};
use crate::node::{
    clone_bytes, insert_at, lemma_insert_at_object, lemma_insert_wf, lemma_merge_wf, merge_val,
    node_view, path_segments, resolve_at, segs_view, split_path, val_wf, JsonNode, JsonVal,
};

verus! {

/// Configuration: top-level names that a regex capture group must never
/// write into.
pub struct DataCacheOptions {
    pub reserved_cache_top_level_names: Vec<Vec<u8>>,
}

impl Default for DataCacheOptions {
    fn default() -> (r: Self)
        ensures
            r.reserved_cache_top_level_names@.len() == 0,
    {
        DataCacheOptions { reserved_cache_top_level_names: Vec::new() }
    }
}

/// One generation of serialized data: the two serializer outputs for the
/// current tree, the matcher built over their placeholder patterns, and
/// the replacement bytes, replaced wholesale on every mutation.
pub struct DataCacheSerializedData {
    pub is_built: bool,
    pub ac: Option<aho_corasick::AhoCorasick>,
    pub serialized: Option<SerializedWithKeys>,
    pub double_serialized: Option<SerializedWithKeys>,
    pub replacements: Vec<Vec<u8>>,
    /// The pattern list the matcher was built over, kept for the record:
    /// a built generation's matcher, table and buffers all come from one
    /// serializer walk of one tree.
    pub patterns: Ghost<Seq<Seq<u8>>>,
}

impl DataCacheSerializedData {
    /// An unbuilt generation.
    fn empty() -> (r: Self)
        ensures
            !r.is_built,
    {
        DataCacheSerializedData {
            is_built: false,
            ac: None,
            serialized: None,
            double_serialized: None,
            replacements: Vec::new(),
            patterns: Ghost(Seq::empty()),
        }
    }
}

/// The replacement table holds, for every recorded path in walk order,
/// first the single-escaped value bytes, then (offset by the entry count)
/// the double-escaped value bytes.
pub open spec fn replacements_ok(reps: Seq<Vec<u8>>, ents: Seq<(Seq<u8>, JsonVal)>) -> bool {
    &&& reps.len() == 2 * ents.len()
    &&& forall|i: int|
        0 <= i < ents.len() ==> (#[trigger] reps[i])@ == slice_of(ents[i].1)
    &&& forall|i: int|
        0 <= i < ents.len() ==> (#[trigger] reps[ents.len() + i])@ == esc(slice_of(ents[i].1))
}

/// The placeholder patterns registered for an entry list: `{$path}` for
/// every recorded path, then `{$$path}` for every recorded path.
pub open spec fn pattern_list(ents: Seq<(Seq<u8>, JsonVal)>) -> Seq<Seq<u8>> {
    Seq::new(
        2 * ents.len(),
        |i: int|
            if i < ents.len() {
                seq![0x7bu8, 0x24u8] + ents[i].0 + seq![0x7du8]
            } else {
                seq![0x7bu8, 0x24u8, 0x24u8] + ents[i - ents.len()].0 + seq![0x7du8]
            },
    )
}

/// A built generation is consistent with the document `root`.
pub open spec fn gen_wf(g: DataCacheSerializedData, root: JsonVal) -> bool {
    g.is_built ==> {
        let ents = index_entries(root, Seq::empty());
        &&& g.ac is Some
        &&& g.patterns@ == pattern_list(ents)
        &&& g.serialized matches Some(s) && s.data@ == ser(root) && s.key_values@.len()
            == ents.len() && entries_ok(s.key_values@, ents, s.data@, false)
        &&& g.double_serialized matches Some(d) && d.data@ == esc(ser(root))
            && d.key_values@.len() == ents.len() && entries_ok(d.key_values@, ents, d.data@, true)
        &&& replacements_ok(g.replacements@, ents)
    }
}

/// A path-addressable JSON document cache with an embedded streaming
/// template engine.
pub struct DataCache {
    pub root: JsonNode,
    pub options: DataCacheOptions,
    pub serialized_data: DataCacheSerializedData,
}

impl DataCache {
    /// The root is an object for the life of the cache, the tree is
    /// well-formed, and any built generation matches it.
    pub open spec fn wf(&self) -> bool {
        &&& self.root@ is Object
        &&& val_wf(self.root@)
        &&& gen_wf(self.serialized_data, self.root@)
    }

    /// The configured reserved top-level names.
    pub open spec fn reserved_names(&self) -> Seq<Seq<u8>> {
        self.options.reserved_cache_top_level_names@.map_values(|v: Vec<u8>| v@)
    }

    /// Whether the current generation is built.
    pub open spec fn cache_built(&self) -> bool {
        self.serialized_data.is_built
    }

    /// A cache over an empty document.
    pub fn new(options: DataCacheOptions) -> (r: Self)
        ensures
            r.wf(),
            r.root@ == JsonVal::Object(Seq::<(Seq<u8>, JsonVal)>::empty()),
            !r.cache_built(),
            r.reserved_names() == options.reserved_cache_top_level_names@.map_values(
                |v: Vec<u8>| v@,
            ),
    {
        let r = DataCache {
            root: JsonNode::Object(Vec::new()),
            options,
            serialized_data: DataCacheSerializedData::empty(),
        };
        proof {
            assert(crate::node::kvs_view(Seq::<(Vec<u8>, JsonNode)>::empty()).len() == 0);
            assert(r.root@ =~= JsonVal::Object(Seq::<(Seq<u8>, JsonVal)>::empty()));
            crate::node::lemma_kv_vals_wf(Seq::<(Seq<u8>, JsonVal)>::empty());
        }
        r
    }

    /// Discards the current generation after a mutation.
    fn on_after_insert(&mut self)
        ensures
            final(self).root == old(self).root,
            final(self).options == old(self).options,
            !final(self).cache_built(),
    {
        self.serialized_data = DataCacheSerializedData::empty();
    }

    /// Inserts the new value. A path containing dot `.` builds nested
    /// objects; a trailing dot appends to (or creates) an array.
    pub fn insert(&mut self, path: &Vec<u8>, value: JsonNode)
        requires
            old(self).wf(),
            val_wf(value@),
        ensures
            final(self).wf(),
            final(self).root@ == insert_at(old(self).root@, path_segments(path@), value@),
            final(self).options == old(self).options,
            final(self).reserved_names() == old(self).reserved_names(),
            !final(self).cache_built(),
    {
        let segs = split_path(path);
        let mut tmp = JsonNode::Null;
        core::mem::swap(&mut self.root, &mut tmp);
        proof {
            assert(segs_view(segs@).skip(0) =~= path_segments(path@));
            lemma_insert_wf(node_view(tmp), path_segments(path@), value@);
            lemma_insert_at_object(node_view(tmp), path_segments(path@), value@);
        }
        let newroot = crate::node::insert_at_node(tmp, &segs, 0, value);
        self.root = newroot;
        self.on_after_insert();
    }

    /// Inserts every pair in order against the same tree, discarding the
    /// generation only once, after the whole batch.
    pub fn insert_bulk(&mut self, values: Vec<(Vec<u8>, JsonNode)>)
        requires
            old(self).wf(),
            forall|i: int| 0 <= i < values@.len() ==> val_wf((#[trigger] values@[i].1)@),
        ensures
            final(self).wf(),
            final(self).root@ == insert_all(old(self).root@, pairs_view(values@)),
            final(self).options == old(self).options,
            final(self).reserved_names() == old(self).reserved_names(),
            !final(self).cache_built(),
    {
        let ghost root0 = node_view(self.root);
        let ghost pv0 = pairs_view(values@);
        let mut values = values;
        while values.len() > 0
            invariant
                node_view(self.root) is Object,
                val_wf(node_view(self.root)),
                gen_wf(self.serialized_data, node_view(old(self).root)),
                self.options == old(self).options,
                self.serialized_data.is_built ==> self.root == old(self).root,
                forall|i: int| 0 <= i < values@.len() ==> val_wf((#[trigger] values@[i].1)@),
                insert_all(root0, pv0) == insert_all(node_view(self.root), pairs_view(values@)),
            decreases values@.len(),
        {
            let ghost values_pre = values@;
            let (path, value) = values.remove(0);
            proof {
                assert(values@ =~= values_pre.drop_first());
                assert(pairs_view(values@) =~= pairs_view(values_pre).drop_first());
                assert(pairs_view(values_pre)[0] == (path@, value@));
                assert(val_wf(value@)) by {
                    assert(val_wf((values_pre[0].1)@));
                }
            }
            let segs = split_path(&path);
            let mut tmp = JsonNode::Null;
            core::mem::swap(&mut self.root, &mut tmp);
            proof {
                assert(segs_view(segs@).skip(0) =~= path_segments(path@));
                lemma_insert_wf(node_view(tmp), path_segments(path@), value@);
                lemma_insert_at_object(node_view(tmp), path_segments(path@), value@);
            }
            let newroot = crate::node::insert_at_node(tmp, &segs, 0, value);
            self.root = newroot;
            self.on_after_insert();
        }
        proof {
            assert(pairs_view(values@).len() == 0);
        }
        self.on_after_insert();
    }

    /// Deep-merges an object into the root: a `null` member deletes its
    /// key, object members merge recursively, anything else replaces the
    /// target member. A non-object argument is absorbed as a no-op: the
    /// root stays an object for the life of the cache.
    pub fn merge(&mut self, other: JsonNode)
        requires
            old(self).wf(),
            val_wf(other@),
        ensures
            final(self).wf(),
            other@ is Object ==> final(self).root@ == merge_val(old(self).root@, other@)
                && !final(self).cache_built(),
            !(other@ is Object) ==> *final(self) == *old(self),
            final(self).options == old(self).options,
            final(self).reserved_names() == old(self).reserved_names(),
    {
        if !matches!(other, JsonNode::Object(_)) {
            return ;
        }
        let mut tmp = JsonNode::Null;
        core::mem::swap(&mut self.root, &mut tmp);
        proof {
            lemma_merge_wf(node_view(tmp), other@);
            assert(merge_val(node_view(tmp), other@) is Object);
        }
        let newroot = crate::node::merge_node(tmp, other);
        self.root = newroot;
        self.on_after_insert();
    }

    /// Accesses a node through a dotted path expression; numeric segments
    /// address array elements.
    pub fn get<'a>(&'a self, target: &Vec<u8>) -> (r: Option<&'a JsonNode>)
        ensures
            match r {
                Some(n) => resolve_at(self.root@, path_segments(target@)) == Some(n@),
                None => resolve_at(self.root@, path_segments(target@)) is None,
            },
    {
        let segs = split_path(target);
        proof {
            assert(segs_view(segs@).skip(0) =~= path_segments(target@));
        }
        crate::node::resolve_node(&self.root, &segs, 0)
    }
}


/// Builds the placeholder patterns and the replacement bytes from the two
/// serializer outputs: `{$path}` patterns over the single-escaped ranges
/// first, then `{$$path}` patterns over the double-escaped ranges.
#[verifier::loop_isolation(false)]
fn build_tables(
    s: &SerializedWithKeys,
    d: &SerializedWithKeys,
    Ghost(ents): Ghost<Seq<(Seq<u8>, JsonVal)>>,
) -> (r: (Vec<Vec<u8>>, Vec<Vec<u8>>))
    requires
        s.key_values@.len() == ents.len(),
        entries_ok(s.key_values@, ents, s.data@, false),
        d.key_values@.len() == ents.len(),
        entries_ok(d.key_values@, ents, d.data@, true),
    ensures
        replacements_ok(r.1@, ents),
        r.0@.len() == r.1@.len(),
        patterns_view(r.0@) == pattern_list(ents),
{
    let mut patterns: Vec<Vec<u8>> = Vec::new();
    let mut reps: Vec<Vec<u8>> = Vec::new();
    let n = s.key_values.len();
    let mut i: usize = 0;
    while i < n
        invariant
            i <= n,
            patterns@.len() == i,
            reps@.len() == i,
            forall|j: int|
                0 <= j < i ==> (#[trigger] patterns@[j])@ == seq![0x7bu8, 0x24u8] + ents[j].0
                    + seq![0x7du8],
            forall|j: int| 0 <= j < i ==> (#[trigger] reps@[j])@ == slice_of(ents[j].1),
        decreases n - i,
    {
        proof {
            assert(crate::json_serializer::entry_ok(
                s.key_values@[i as int],
                ents[i as int],
                s.data@,
                false,
            ));
        }
        let pr = &s.key_values[i];
        let mut pat: Vec<u8> = Vec::new();
        pat.push(0x7b);
        pat.push(0x24);
        crate::json_serializer::append_bytes(&mut pat, &pr.0);
        pat.push(0x7d);
        proof {
            assert(pat@ =~= seq![0x7bu8, 0x24u8] + ents[i as int].0 + seq![0x7du8]);
        }
        patterns.push(pat);
        let sl = vstd::slice::slice_subrange(s.data.as_slice(), pr.1.start, pr.1.end);
        reps.push(vstd::slice::slice_to_vec(sl));
        i += 1;
    }
    let mut i: usize = 0;
    while i < n
        invariant
            i <= n,
            patterns@.len() == n + i,
            reps@.len() == n + i,
            forall|j: int|
                0 <= j < n ==> (#[trigger] patterns@[j])@ == seq![0x7bu8, 0x24u8] + ents[j].0
                    + seq![0x7du8],
            forall|j: int| 0 <= j < n ==> (#[trigger] reps@[j])@ == slice_of(ents[j].1),
            forall|j: int|
                0 <= j < i ==> (#[trigger] patterns@[n + j])@ == seq![0x7bu8, 0x24u8, 0x24u8]
                    + ents[j].0 + seq![0x7du8],
            forall|j: int| 0 <= j < i ==> (#[trigger] reps@[n + j])@ == esc(slice_of(ents[j].1)),
        decreases n - i,
    {
        proof {
            assert(crate::json_serializer::entry_ok(
                d.key_values@[i as int],
                ents[i as int],
                d.data@,
                true,
            ));
        }
        let pr = &d.key_values[i];
        let mut pat: Vec<u8> = Vec::new();
        pat.push(0x7b);
        pat.push(0x24);
        pat.push(0x24);
        crate::json_serializer::append_bytes(&mut pat, &pr.0);
        pat.push(0x7d);
        proof {
            assert(pat@ =~= seq![0x7bu8, 0x24u8, 0x24u8] + ents[i as int].0 + seq![0x7du8]);
        }
        patterns.push(pat);
        let sl = vstd::slice::slice_subrange(d.data.as_slice(), pr.1.start, pr.1.end);
        reps.push(vstd::slice::slice_to_vec(sl));
        i += 1;
    }
    proof {
        assert(patterns_view(patterns@) =~= pattern_list(ents)) by {
            assert forall|j: int|
                0 <= j < patterns@.len() implies patterns_view(patterns@)[j] == pattern_list(
                ents,
            )[j] by {
                if j < ents.len() {
                    assert(patterns@[j]@ == seq![0x7bu8, 0x24u8] + ents[j].0 + seq![0x7du8]);
                } else {
                    assert(patterns@[ents.len() + (j - ents.len())]@ == seq![
                        0x7bu8,
                        0x24u8,
                        0x24u8,
                    ] + ents[j - ents.len()].0 + seq![0x7du8]);
                }
            }
        }
    }
    (patterns, reps)
}

/// Folding a match's named groups into the tree, in the pattern's order: a
/// group that did not participate in the match inserts nothing and is not
/// checked; a participating group with a reserved name stops the fold with
/// a failure, leaving earlier insertions applied; any other participating
/// group's text is inserted at the group's name as path.
pub open spec fn ingest_spec(
    root: JsonVal,
    reserved: Seq<Seq<u8>>,
    gs: Seq<(Seq<u8>, Option<Seq<u8>>)>,
) -> (JsonVal, bool)
    decreases gs.len(),
{
    if gs.len() == 0 {
        (root, true)
    } else {
        let name = gs[0].0;
        match gs[0].1 {
            Some(text) => if reserved.contains(name) {
                (root, false)
            } else {
                ingest_spec(
                    insert_at(root, path_segments(name), JsonVal::String(text)),
                    reserved,
                    gs.drop_first(),
                )
            },
            None => ingest_spec(root, reserved, gs.drop_first()),
        }
    }
}

impl DataCache {
    /// Whether `name` is a reserved top-level name.
    #[verifier::loop_isolation(false)]
    fn is_reserved(&self, name: &Vec<u8>) -> (r: bool)
        ensures
            r == self.reserved_names().contains(name@),
    {
        let list = &self.options.reserved_cache_top_level_names;
        let mut i: usize = 0;
        while i < list.len()
            invariant
                i <= list@.len(),
                forall|j: int| 0 <= j < i ==> list@[j]@ != name@,
        decreases list@.len() - i,
        {
            if crate::node::bytes_eq(&list[i], name) {
                proof {
                    assert(self.reserved_names()[i as int] == list@[i as int]@);
                    assert(self.reserved_names().contains(name@)) by {
                        assert(self.reserved_names()[i as int] == name@);
                    }
                }
                return true;
            }
            i += 1;
        }
        proof {
            if self.reserved_names().contains(name@) {
                let w = choose|w: int|
                    0 <= w < self.reserved_names().len() && self.reserved_names()[w] == name@;
                assert(list@[w]@ != name@);
            }
        }
        false
    }

    /// Applies a match's named capture groups to the tree, in order: a
    /// group that did not participate is skipped; a participating group
    /// with a reserved name fails at once (earlier insertions remain
    /// applied, deliberately); any other participating group's text is
    /// inserted at the group's name as path.
    #[verifier::loop_isolation(false)]
    pub fn ingest_captures(&mut self, groups: Vec<(Vec<u8>, Option<Vec<u8>>)>) -> (r: Result<
        (),
        JsonDataCacheError,
    >)
        requires
            old(self).wf(),
        ensures
            final(self).wf(),
            final(self).options == old(self).options,
            final(self).reserved_names() == old(self).reserved_names(),
            (final(self).root@, r is Ok) == ingest_spec(
                old(self).root@,
                old(self).reserved_names(),
                groups_view(groups@),
            ),
            final(self).cache_built() ==> old(self).cache_built(),
    {
        let ghost root0 = node_view(self.root);
        let ghost res0 = self.reserved_names();
        let ghost gv0 = groups_view(groups@);
        let mut groups = groups;
        while groups.len() > 0
            invariant
                self.wf(),
                self.options == old(self).options,
                self.reserved_names() == res0,
                self.cache_built() ==> old(self).cache_built(),
                ingest_spec(root0, res0, gv0) == ingest_spec(
                    node_view(self.root),
                    res0,
                    groups_view(groups@),
                ),
            decreases groups@.len(),
        {
            let ghost groups_pre = groups@;
            let (name, matched) = groups.remove(0);
            proof {
                assert(groups@ =~= groups_pre.drop_first());
                assert(groups_view(groups@) =~= groups_view(groups_pre).drop_first());
                assert(groups_view(groups_pre)[0] == (
                    name@,
                    match matched {
                        Some(v) => Some(v@),
                        None => None,
                    },
                ));
            }
            match matched {
                Some(text) => {
                    if self.is_reserved(&name) {
                        proof {
                            assert(ingest_spec(
                                node_view(self.root),
                                res0,
                                groups_view(groups_pre),
                            ) == (node_view(self.root), false));
                        }
                        return Err(JsonDataCacheError::from(
                            "capturing into a reserved variable is not allowed".to_string(),
                        ));
                    }
                    self.insert(&name, JsonNode::String(text));
                },
                None => {},
            }
        }
        proof {
            assert(groups_view(groups@).len() == 0);
            assert(ingest_spec(node_view(self.root), res0, groups_view(groups@)) == (
                node_view(self.root),
                true,
            ));
        }
        Ok(())
    }

    /// Matches a pattern against `source`, storing every participating
    /// named capture group into the cache at the group's name as path.
    /// Reports whether a match occurred; an invalid pattern, and a
    /// participating capture group with a reserved name, are failures.
    pub fn match_regex(&mut self, regex: &str, source: &str) -> (r: Result<
        bool,
        JsonDataCacheError,
    >)
        requires
            old(self).wf(),
        ensures
            final(self).wf(),
            final(self).reserved_names() == old(self).reserved_names(),
            final(self).options == old(self).options,
            final(self).cache_built() ==> old(self).cache_built(),
            !regex_ok(regex@) ==> r is Err && *final(self) == *old(self),
            regex_ok(regex@) && captures_of(regex@, source@) is None ==> r == Ok::<
                bool,
                JsonDataCacheError,
            >(false) && *final(self) == *old(self),

            regex_ok(regex@) ==> (captures_of(regex@, source@) matches Some(gs) ==> {
                &&& (final(self).root@, r is Ok) == ingest_spec(
                    old(self).root@,
                    old(self).reserved_names(),
                    gs,
                )
                &&& (r is Ok ==> r == Ok::<bool, JsonDataCacheError>(true))
            }),
    {
        match regex_match_named(regex, source) {
            Err(()) => Err(JsonDataCacheError::from("invalid regex pattern".to_string())),
            Ok(None) => Ok(false),
            Ok(Some(groups)) => match self.ingest_captures(groups) {
                Ok(()) => Ok(true),
                Err(e) => Err(e),
            },
        }
    }

    /// Performs replacements of `{$path}` and `{$$path}` placeholders in
    /// `reader` into `writer`, with the serialized value recorded for that
    /// path. The generation is rebuilt from the current tree when a
    /// mutation has invalidated it, and reused otherwise; a failure can
    /// only come from the matcher build (a function of the placeholder
    /// patterns alone) or from the caller's reader and writer.
    pub fn replace_with_data_cache<R: std::io::Read, W: std::io::Write>(
        &mut self,
        reader: R,
        writer: W,
    ) -> (r: Result<(), JsonDataCacheError>)
        requires
            old(self).wf(),
        ensures
            final(self).wf(),
            final(self).root@ == old(self).root@,
            final(self).options == old(self).options,
            final(self).reserved_names() == old(self).reserved_names(),
            r is Ok ==> final(self).cache_built(),
            old(self).cache_built() ==> final(self).serialized_data
                == old(self).serialized_data,
            old(self).cache_built() || ac_build_ok(
                pattern_list(index_entries(old(self).root@, Seq::empty())),
            ) ==> final(self).cache_built(),
            !old(self).cache_built() && !ac_build_ok(
                pattern_list(index_entries(old(self).root@, Seq::empty())),
            ) ==> r is Err && !final(self).cache_built(),
    {
        let ghost ents = index_entries(node_view(self.root), Seq::empty());
        if !self.serialized_data.is_built {
            let (serialized, double_opt) = JsonSerializer::serialize(&self.root, true);
            let double = match double_opt {
                Some(d) => d,
                None => {
                    proof {
                        assert(false);
                    }
                    vstd::pervasive::unreached()
                },
            };
            let (patterns, replacements) = build_tables(&serialized, &double, Ghost(ents));
            match ac_new(&patterns) {
                Ok(ac) => {
                    self.serialized_data = DataCacheSerializedData {
                        is_built: true,
                        ac: Some(ac),
                        serialized: Some(serialized),
                        double_serialized: Some(double),
                        replacements,
                        patterns: Ghost(pattern_list(ents)),
                    };
                },
                Err(msg) => {
                    return Err(JsonDataCacheError::from(msg));
                },
            }
        }
        let ac = match &self.serialized_data.ac {
            Some(ac) => ac,
            None => {
                proof {
                    assert(false);
                }
                vstd::pervasive::unreached()
            },
        };
        match ac_stream_replace(ac, reader, writer, &self.serialized_data.replacements) {
            Ok(()) => Ok(()),
            Err(msg) => Err(JsonDataCacheError::from(msg)),
        }
    }
}

/// The string form of one node: scalars by their literal text, strings by
/// their raw content, containers by their compact JSON form.
pub open spec fn repr_of(v: JsonVal) -> Seq<u8> {
    match v {
        JsonVal::String(sc) => sc,
        _ => ser(v),
    }
}

/// The `(path, string form)` pairs of all nodes reachable from `v`, in
/// walk order (children first); an object root (empty path) contributes no
/// pair of its own, an array root does.
pub open spec fn smap_entries(v: JsonVal, prefix: Seq<u8>) -> Seq<(Seq<u8>, Seq<u8>)>
    decreases v, 0int,
{
    match v {
        JsonVal::Array(items) => smap_arr(items, prefix, items.len() as int) + seq![
            (prefix, ser(v)),
        ],
        JsonVal::Object(kvs) => smap_obj(kvs, prefix, kvs.len() as int) + (if prefix.len() > 0 {
            seq![(prefix, ser(v))]
        } else {
            Seq::empty()
        }),
        _ => seq![(prefix, repr_of(v))],
    }
}

/// Entries of the first `n` members of an object.
pub open spec fn smap_obj(kvs: Seq<(Seq<u8>, JsonVal)>, prefix: Seq<u8>, n: int) -> Seq<
    (Seq<u8>, Seq<u8>),
>
    decreases kvs, n,
{
    if n <= 0 || n > kvs.len() {
        Seq::empty()
    } else {
        smap_obj(kvs, prefix, n - 1) + smap_entries(
            kvs[n - 1].1,
            crate::node::join_path(prefix, kvs[n - 1].0),
        )
    }
}

/// Entries of the first `n` elements of an array.
pub open spec fn smap_arr(items: Seq<JsonVal>, prefix: Seq<u8>, n: int) -> Seq<
    (Seq<u8>, Seq<u8>),
>
    decreases items, n,
{
    if n <= 0 || n > items.len() {
        Seq::empty()
    } else {
        smap_arr(items, prefix, n - 1) + smap_entries(
            items[n - 1],
            crate::node::join_path(prefix, crate::node::dec_str((n - 1) as nat)),
        )
    }
}

/// Index of the first pair with key `k`, or `-1`.
pub open spec fn str_index_of(m: Seq<(Seq<u8>, Seq<u8>)>, k: Seq<u8>) -> int
    decreases m.len(),
{
    if m.len() == 0 {
        -1
    } else if m[0].0 == k {
        0
    } else {
        let r = str_index_of(m.drop_first(), k);
        if r == -1 {
            -1
        } else {
            r + 1
        }
    }
}

/// Binding a key in the string map: later entries win in place.
pub open spec fn str_set(m: Seq<(Seq<u8>, Seq<u8>)>, k: Seq<u8>, v: Seq<u8>) -> Seq<
    (Seq<u8>, Seq<u8>),
> {
    if str_index_of(m, k) >= 0 {
        m.update(str_index_of(m, k), (k, v))
    } else {
        m.push((k, v))
    }
}

/// Folds raw entries into a map, replacing earlier bindings of a path.
pub open spec fn smap_fold(acc: Seq<(Seq<u8>, Seq<u8>)>, ents: Seq<(Seq<u8>, Seq<u8>)>) -> Seq<
    (Seq<u8>, Seq<u8>),
>
    decreases ents.len(),
{
    if ents.len() == 0 {
        acc
    } else {
        smap_fold(str_set(acc, ents[0].0, ents[0].1), ents.drop_first())
    }
}

/// `str_index_of` finds the first occurrence.
pub proof fn lemma_str_index_of(m: Seq<(Seq<u8>, Seq<u8>)>, k: Seq<u8>)
    ensures
        str_index_of(m, k) == -1 ==> forall|i: int| 0 <= i < m.len() ==> m[i].0 != k,
        str_index_of(m, k) != -1 ==> {
            let r = str_index_of(m, k);
            &&& 0 <= r < m.len()
            &&& m[r].0 == k
            &&& forall|i: int| 0 <= i < r ==> m[i].0 != k
        },
    decreases m.len(),
{
    if m.len() > 0 && m[0].0 != k {
        lemma_str_index_of(m.drop_first(), k);
        assert(forall|i: int| 1 <= i < m.len() ==> m[i] == m.drop_first()[i - 1]);
    }
}

/// Appends the string forms of all nodes reachable from `node`.
#[verifier::loop_isolation(false)]
fn collect_smap(node: &JsonNode, prefix: &Vec<u8>, out: &mut Vec<(Vec<u8>, Vec<u8>)>)
    requires
        val_wf(node_view(*node)),
    ensures
        final(out)@.len() == old(out)@.len() + smap_entries(node_view(*node), prefix@).len(),
        final(out)@.take(old(out)@.len() as int) == old(out)@,
        forall|i: int|
            0 <= i < smap_entries(node_view(*node), prefix@).len() ==> {
                let e = #[trigger] final(out)@[old(out)@.len() + i];
                (e.0@, e.1@) == smap_entries(node_view(*node), prefix@)[i]
            },
    decreases *node,
{
    let ghost v = node_view(*node);
    let ghost out0 = out@;
    match node {
        JsonNode::Null => {
            let mut t: Vec<u8> = Vec::new();
            t.push(0x6e);
            t.push(0x75);
            t.push(0x6c);
            t.push(0x6c);
            proof {
                assert(t@ =~= repr_of(v));
            }
            out.push((clone_bytes(prefix), t));
            proof {
                assert(out@.take(out0.len() as int) =~= out0);
            }
        },
        JsonNode::Bool(b) => {
            let mut t: Vec<u8> = Vec::new();
            if *b {
                t.push(0x74);
                t.push(0x72);
                t.push(0x75);
                t.push(0x65);
            } else {
                t.push(0x66);
                t.push(0x61);
                t.push(0x6c);
                t.push(0x73);
                t.push(0x65);
            }
            proof {
                assert(t@ =~= repr_of(v));
            }
            out.push((clone_bytes(prefix), t));
            proof {
                assert(out@.take(out0.len() as int) =~= out0);
            }
        },
        JsonNode::Number(t) => {
            out.push((clone_bytes(prefix), clone_bytes(t)));
            proof {
                assert(out@.take(out0.len() as int) =~= out0);
            }
        },
        JsonNode::String(sc) => {
            out.push((clone_bytes(prefix), clone_bytes(sc)));
            proof {
                assert(out@.take(out0.len() as int) =~= out0);
            }
        },
        JsonNode::Array(items) => {
            let ghost itemsv = crate::node::items_view(items@);
            proof {
                crate::node::lemma_items_view(items@);
                crate::node::lemma_arr_wf_unfold(itemsv);
            }
            let mut i: usize = 0;
            while i < items.len()
                invariant
                    i <= items@.len(),
                    out@.len() == out0.len() + smap_arr(itemsv, prefix@, i as int).len(),
                    out@.take(out0.len() as int) == out0,
                    forall|j: int|
                        0 <= j < smap_arr(itemsv, prefix@, i as int).len() ==> {
                            let e = #[trigger] out@[out0.len() + j];
                            (e.0@, e.1@) == smap_arr(itemsv, prefix@, i as int)[j]
                        },
                decreases items@.len() - i,
            {
                let ghost out_pre = out@;
                let mut cpath: Vec<u8>;
                if prefix.len() == 0 {
                    cpath = Vec::new();
                } else {
                    cpath = clone_bytes(prefix);
                    cpath.push(0x2e);
                }
                crate::node::push_dec(&mut cpath, i);
                let ghost pp = crate::node::join_path(prefix@, crate::node::dec_str(i as nat));
                proof {
                    assert(cpath@ =~= pp);
                    assert(val_wf(itemsv[i as int]));
                    assert(decreases_to!(*node => items@[i as int]));
                }
                collect_smap(&items[i], &cpath, out);
                proof {
                    let acc = smap_arr(itemsv, prefix@, i as int);
                    let ch = smap_entries(itemsv[i as int], pp);
                    assert(smap_arr(itemsv, prefix@, i + 1 as int) == acc + ch);
                    assert(out@.take(out0.len() as int) =~= out0) by {
                        assert forall|j: int|
                            0 <= j < out0.len() implies out@.take(out0.len() as int)[j] == out0[j]
                        by {
                            assert(out@.take(out_pre.len() as int)[j] == out@[j]);
                            assert(out_pre.take(out0.len() as int)[j] == out_pre[j]);
                        }
                    }
                    assert forall|j: int|
                        0 <= j < (acc + ch).len() implies {
                            let e = #[trigger] out@[out0.len() + j];
                            (e.0@, e.1@) == (acc + ch)[j]
                        } by {
                        if j < acc.len() {
                            assert(out@.take(out_pre.len() as int)[out0.len() + j] == out@[out0.len()
                                + j]);
                            assert(out_pre[out0.len() + j] == out@[out0.len() + j]);
                        } else {
                            assert(out@[out_pre.len() + (j - acc.len())] == out@[out0.len() + j]);
                        }
                    }
                }
                i += 1;
            }
            let form = crate::json_serializer::serialize_bytes(node);
            out.push((clone_bytes(prefix), form));
            proof {
                assert(smap_entries(v, prefix@) == smap_arr(itemsv, prefix@, itemsv.len() as int)
                    + seq![(prefix@, ser(v))]);
                assert(itemsv.len() == items@.len());
                assert(out@.take(out0.len() as int) =~= out0);
            }
        },
        JsonNode::Object(kvs) => {
            let ghost kvsv = crate::node::kvs_view(kvs@);
            proof {
                crate::node::lemma_kvs_view(kvs@);
                crate::node::lemma_obj_wf_unfold(kvsv);
            }
            let mut i: usize = 0;
            while i < kvs.len()
                invariant
                    i <= kvs@.len(),
                    out@.len() == out0.len() + smap_obj(kvsv, prefix@, i as int).len(),
                    out@.take(out0.len() as int) == out0,
                    forall|j: int|
                        0 <= j < smap_obj(kvsv, prefix@, i as int).len() ==> {
                            let e = #[trigger] out@[out0.len() + j];
                            (e.0@, e.1@) == smap_obj(kvsv, prefix@, i as int)[j]
                        },
                decreases kvs@.len() - i,
            {
                let ghost out_pre = out@;
                let key_ref = &kvs[i].0;
                let mut cpath: Vec<u8>;
                if prefix.len() == 0 {
                    cpath = clone_bytes(key_ref);
                } else {
                    cpath = clone_bytes(prefix);
                    cpath.push(0x2e);
                    crate::json_serializer::append_bytes(&mut cpath, key_ref);
                }
                let ghost pp = crate::node::join_path(prefix@, kvsv[i as int].0);
                proof {
                    assert(kvsv[i as int] == (kvs@[i as int].0@, node_view(kvs@[i as int].1)));
                    assert(cpath@ =~= pp);
                    assert(val_wf(kvsv[i as int].1));
                    assert(decreases_to!(*node => kvs@[i as int].1));
                }
                collect_smap(&kvs[i].1, &cpath, out);
                proof {
                    let acc = smap_obj(kvsv, prefix@, i as int);
                    let ch = smap_entries(kvsv[i as int].1, pp);
                    assert(smap_obj(kvsv, prefix@, i + 1 as int) == acc + ch);
                    assert(out@.take(out0.len() as int) =~= out0) by {
                        assert forall|j: int|
                            0 <= j < out0.len() implies out@.take(out0.len() as int)[j] == out0[j]
                        by {
                            assert(out@.take(out_pre.len() as int)[j] == out@[j]);
                            assert(out_pre.take(out0.len() as int)[j] == out_pre[j]);
                        }
                    }
                    assert forall|j: int|
                        0 <= j < (acc + ch).len() implies {
                            let e = #[trigger] out@[out0.len() + j];
                            (e.0@, e.1@) == (acc + ch)[j]
                        } by {
                        if j < acc.len() {
                            assert(out@.take(out_pre.len() as int)[out0.len() + j] == out@[out0.len()
                                + j]);
                            assert(out_pre[out0.len() + j] == out@[out0.len() + j]);
                        } else {
                            assert(out@[out_pre.len() + (j - acc.len())] == out@[out0.len() + j]);
                        }
                    }
                }
                i += 1;
            }
            if prefix.len() > 0 {
                let form = crate::json_serializer::serialize_bytes(node);
                out.push((clone_bytes(prefix), form));
            }
            proof {
                assert(kvsv.len() == kvs@.len());
                if prefix@.len() > 0 {
                    assert(smap_entries(v, prefix@) == smap_obj(
                        kvsv,
                        prefix@,
                        kvsv.len() as int,
                    ) + seq![(prefix@, ser(v))]);
                } else {
                    assert(smap_entries(v, prefix@) =~= smap_obj(
                        kvsv,
                        prefix@,
                        kvsv.len() as int,
                    ));
                }
                assert(out@.take(out0.len() as int) =~= out0);
            }
        },
    }
}

/// Position of the binding with key `k` in the exported map, if any.
fn str_find(m: &Vec<(Vec<u8>, Vec<u8>)>, k: &Vec<u8>) -> (r: Option<usize>)
    ensures
        match r {
            Some(i) => i < m@.len() && str_index_of(map_view(m@), k@) == i as int,
            None => str_index_of(map_view(m@), k@) == -1,
        },
{
    let mut i: usize = 0;
    while i < m.len()
        invariant
            i <= m@.len(),
            forall|j: int| 0 <= j < i ==> m@[j].0@ != k@,
        decreases m@.len() - i,
    {
        if crate::node::bytes_eq(&m[i].0, k) {
            proof {
                lemma_str_index_of(map_view(m@), k@);
                let r = str_index_of(map_view(m@), k@);
                assert(map_view(m@)[i as int].0 == k@);
                assert(r != -1);
                assert(!(r < i)) by {
                    if 0 <= r < i {
                        assert(m@[r].0@ != k@);
                        assert(map_view(m@)[r].0 == m@[r].0@);
                    }
                }
                assert(!(r > i)) by {
                    if r > i {
                        assert(map_view(m@)[i as int].0 != k@);
                    }
                }
            }
            return Some(i);
        }
        i += 1;
    }
    proof {
        lemma_str_index_of(map_view(m@), k@);
        if str_index_of(map_view(m@), k@) >= 0 {
            let x = str_index_of(map_view(m@), k@);
            assert(m@[x].0@ != k@);
            assert(map_view(m@)[x].0 == m@[x].0@);
        }
    }
    None
}

impl DataCache {
    /// Returns all nodes of the cache with their string values, keyed by
    /// dotted path (numbers for array elements); a later node at the same
    /// path replaces an earlier binding in place.
    #[verifier::loop_isolation(false)]
    pub fn as_string_values_map(&self) -> (r: Vec<(Vec<u8>, Vec<u8>)>)
        requires
            self.wf(),
        ensures
            map_view(r@) == smap_fold(Seq::empty(), smap_entries(self.root@, Seq::empty())),
    {
        let mut raw: Vec<(Vec<u8>, Vec<u8>)> = Vec::new();
        let empty: Vec<u8> = Vec::new();
        collect_smap(&self.root, &empty, &mut raw);
        let ghost ents = smap_entries(node_view(self.root), Seq::empty());
        proof {
            assert(map_view(raw@) =~= ents) by {
                assert forall|i: int| 0 <= i < ents.len() implies map_view(raw@)[i] == ents[i] by {
                    assert(raw@[0 + i] == raw@[i]);
                }
            }
        }
        let mut map: Vec<(Vec<u8>, Vec<u8>)> = Vec::new();
        proof {
            assert(map_view(map@) =~= Seq::<(Seq<u8>, Seq<u8>)>::empty());
        }
        let mut raw = raw;
        while raw.len() > 0
            invariant
                smap_fold(Seq::empty(), ents) == smap_fold(map_view(map@), map_view(raw@)),
            decreases raw@.len(),
        {
            let ghost raw_pre = raw@;
            let ghost map_pre = map@;
            let (k, v) = raw.remove(0);
            proof {
                assert(raw@ =~= raw_pre.drop_first());
                assert(map_view(raw@) =~= map_view(raw_pre).drop_first());
                assert(map_view(raw_pre)[0] == (k@, v@));
                lemma_str_index_of(map_view(map_pre), k@);
            }
            let found = str_find(&map, &k);
            match found {
                Some(x) => {
                    let _old = map.remove(x);
                    map.insert(x, (k, v));
                    proof {
                        assert(map@ =~= map_pre.update(x as int, (k, v)));
                        assert(str_index_of(map_view(map_pre), k@) == x as int);
                        assert(map_view(map@) =~= str_set(map_view(map_pre), k@, v@)) by {
                            assert forall|j: int|
                                0 <= j < map@.len() implies map_view(map@)[j] == str_set(
                                map_view(map_pre),
                                k@,
                                v@,
                            )[j] by {
                                if j != x {
                                    assert(map@[j] == map_pre[j]);
                                }
                            }
                        }
                    }
                },
                None => {
                    map.push((k, v));
                    proof {
                        assert(map_view(map@) =~= str_set(map_view(map_pre), k@, v@));
                    }
                },
            }
        }
        proof {
            assert(map_view(raw@).len() == 0);
        }
        map
    }
}

/// Model of the exported map.
pub open spec fn map_view(m: Seq<(Vec<u8>, Vec<u8>)>) -> Seq<(Seq<u8>, Seq<u8>)> {
    m.map_values(|e: (Vec<u8>, Vec<u8>)| (e.0@, e.1@))
}


/// Number of nodes of a value, itself included.
pub open spec fn node_count(v: JsonVal) -> nat
    decreases v, 0int,
{
    match v {
        JsonVal::Array(items) => 1 + count_items(items, items.len() as int),
        JsonVal::Object(kvs) => 1 + count_members(kvs, kvs.len() as int),
        _ => 1,
    }
}

/// Nodes of the first `n` elements.
pub open spec fn count_items(items: Seq<JsonVal>, n: int) -> nat
    decreases items, n,
{
    if n <= 0 || n > items.len() {
        0
    } else {
        count_items(items, n - 1) + node_count(items[n - 1])
    }
}

/// Nodes of the first `n` member values.
pub open spec fn count_members(kvs: Seq<(Seq<u8>, JsonVal)>, n: int) -> nat
    decreases kvs, n,
{
    if n <= 0 || n > kvs.len() {
        0
    } else {
        count_members(kvs, n - 1) + node_count(kvs[n - 1].1)
    }
}

/// No object key anywhere in the value is the empty string.
pub open spec fn no_empty_keys(v: JsonVal) -> bool
    decreases v, 1int,
{
    match v {
        JsonVal::Array(items) => arr_no_empty_keys(items),
        JsonVal::Object(kvs) => kvs_no_empty_keys(kvs),
        _ => true,
    }
}

pub open spec fn arr_no_empty_keys(items: Seq<JsonVal>) -> bool
    decreases items, 0int,
{
    items.len() == 0 || (arr_no_empty_keys(items.drop_last()) && no_empty_keys(items.last()))
}

pub open spec fn kvs_no_empty_keys(kvs: Seq<(Seq<u8>, JsonVal)>) -> bool
    decreases kvs, 0int,
{
    kvs.len() == 0 || (kvs_no_empty_keys(kvs.drop_last()) && kvs.last().0.len() > 0
        && no_empty_keys(kvs.last().1))
}

/// What `arr_no_empty_keys` gives element-wise.
proof fn lemma_arr_no_empty_keys(items: Seq<JsonVal>)
    requires
        arr_no_empty_keys(items),
    ensures
        forall|i: int| 0 <= i < items.len() ==> #[trigger] no_empty_keys(items[i]),
    decreases items.len(),
{
    if items.len() > 0 {
        let d = items.drop_last();
        lemma_arr_no_empty_keys(d);
        assert forall|i: int| 0 <= i < items.len() implies #[trigger] no_empty_keys(items[i]) by {
            if i < items.len() - 1 {
                assert(d[i] == items[i]);
                assert(no_empty_keys(d[i]));
            } else {
                assert(no_empty_keys(items.last()));
            }
        }
    }
}

/// What `kvs_no_empty_keys` gives member-wise.
proof fn lemma_kvs_no_empty_keys(kvs: Seq<(Seq<u8>, JsonVal)>)
    requires
        kvs_no_empty_keys(kvs),
    ensures
        forall|i: int| 0 <= i < kvs.len() ==> (#[trigger] kvs[i]).0.len() > 0,
        forall|i: int| 0 <= i < kvs.len() ==> #[trigger] no_empty_keys(kvs[i].1),
    decreases kvs.len(),
{
    if kvs.len() > 0 {
        let d = kvs.drop_last();
        lemma_kvs_no_empty_keys(d);
        assert(forall|i: int| 0 <= i < kvs.len() - 1 ==> kvs[i] == d[i]);
        assert forall|i: int| 0 <= i < kvs.len() implies (#[trigger] kvs[i]).0.len() > 0 by {
            if i < kvs.len() - 1 {
                assert(d[i].0.len() > 0);
            }
        }
        assert forall|i: int| 0 <= i < kvs.len() implies #[trigger] no_empty_keys(kvs[i].1) by {
            if i < kvs.len() - 1 {
                assert(no_empty_keys(d[i].1));
            } else {
                assert(no_empty_keys(kvs.last().1));
            }
        }
    }
}

/// Walking a value with a non-empty path (or a non-object at the root)
/// records exactly one string form per reachable node; only an object at
/// the empty path withholds its own.
proof fn lemma_smap_count(v: JsonVal, prefix: Seq<u8>)
    requires
        no_empty_keys(v),
    ensures
        smap_entries(v, prefix).len() + (if v is Object && prefix.len() == 0 {
            1int
        } else {
            0int
        }) == node_count(v),
    decreases v, 2int,
{
    match v {
        JsonVal::Array(items) => {
            lemma_arr_no_empty_keys(items);
            lemma_smap_arr_count(items, prefix, items.len() as int);
        },
        JsonVal::Object(kvs) => {
            lemma_kvs_no_empty_keys(kvs);
            lemma_smap_obj_count(kvs, prefix, kvs.len() as int);
        },
        _ => {},
    }
}

/// Per-element counting for the first `n` array elements.
proof fn lemma_smap_arr_count(items: Seq<JsonVal>, prefix: Seq<u8>, n: int)
    requires
        0 <= n <= items.len(),
        forall|i: int| 0 <= i < items.len() ==> #[trigger] no_empty_keys(items[i]),
    ensures
        smap_arr(items, prefix, n).len() == count_items(items, n),
    decreases items, n,
{
    if n > 0 {
        lemma_smap_arr_count(items, prefix, n - 1);
        let p = crate::node::join_path(prefix, crate::node::dec_str((n - 1) as nat));
        assert(crate::node::dec_str((n - 1) as nat).len() > 0);
        assert(p.len() > 0);
        assert(no_empty_keys(items[n - 1]));
        lemma_smap_count(items[n - 1], p);
    }
}

/// Per-member counting for the first `n` object members.
proof fn lemma_smap_obj_count(kvs: Seq<(Seq<u8>, JsonVal)>, prefix: Seq<u8>, n: int)
    requires
        0 <= n <= kvs.len(),
        forall|i: int| 0 <= i < kvs.len() ==> (#[trigger] kvs[i]).0.len() > 0,
        forall|i: int| 0 <= i < kvs.len() ==> #[trigger] no_empty_keys(kvs[i].1),
    ensures
        smap_obj(kvs, prefix, n).len() == count_members(kvs, n),
    decreases kvs, n,
{
    if n > 0 {
        lemma_smap_obj_count(kvs, prefix, n - 1);
        let p = crate::node::join_path(prefix, kvs[n - 1].0);
        assert(kvs[n - 1].0.len() > 0);
        assert(p.len() > 0);
        assert(no_empty_keys(kvs[n - 1].1));
        lemma_smap_count(kvs[n - 1].1, p);
    }
}

/// Folding entries with pairwise-distinct paths drops nothing.
proof fn lemma_smap_fold_len(acc: Seq<(Seq<u8>, Seq<u8>)>, ents: Seq<(Seq<u8>, Seq<u8>)>)
    requires
        forall|i: int, j: int| 0 <= i < j < ents.len() ==> ents[i].0 != ents[j].0,
        forall|i: int, j: int|
            0 <= i < acc.len() && 0 <= j < ents.len() ==> acc[i].0 != ents[j].0,
    ensures
        smap_fold(acc, ents).len() == acc.len() + ents.len(),
    decreases ents.len(),
{
    if ents.len() > 0 {
        let k = ents[0].0;
        lemma_str_index_of(acc, k);
        assert(str_index_of(acc, k) == -1) by {
            if str_index_of(acc, k) >= 0 {
                let x = str_index_of(acc, k);
                assert(acc[x].0 != ents[0].0);
            }
        }
        let acc2 = str_set(acc, k, ents[0].1);
        let rest = ents.drop_first();
        assert(forall|i: int| 0 <= i < rest.len() ==> rest[i] == ents[i + 1]);
        assert forall|i: int, j: int|
            0 <= i < acc2.len() && 0 <= j < rest.len() implies acc2[i].0 != rest[j].0 by {
            if i < acc.len() {
                assert(acc[i].0 != ents[j + 1].0);
            } else {
                assert(ents[0].0 != ents[j + 1].0);
            }
        }
        lemma_smap_fold_len(acc2, rest);
    }
}

/// The exported map holds one entry for every reachable node, the root
/// itself excluded when it is an object (an array root contributes the
/// empty path), provided all recorded paths are pairwise distinct and no
/// object key is empty. A key containing a dot, or an empty key, can make
/// two nodes share a path; the map then keeps the later node only.
pub proof fn lemma_string_map_count(root: JsonVal)
    requires
        root is Object || root is Array,
        no_empty_keys(root),
        forall|i: int, j: int|
            0 <= i < j < smap_entries(root, Seq::empty()).len() ==> smap_entries(
                root,
                Seq::empty(),
            )[i].0 != smap_entries(root, Seq::empty())[j].0,
    ensures
        smap_fold(Seq::empty(), smap_entries(root, Seq::empty())).len() + (if root is Object {
            1int
        } else {
            0int
        }) == node_count(root),
{
    lemma_smap_count(root, Seq::empty());
    lemma_smap_fold_len(Seq::empty(), smap_entries(root, Seq::empty()));
}

/// Model of a list of `(path, value)` pairs.
pub open spec fn pairs_view(values: Seq<(Vec<u8>, JsonNode)>) -> Seq<(Seq<u8>, JsonVal)> {
    values.map_values(|pv: (Vec<u8>, JsonNode)| (pv.0@, node_view(pv.1)))
}

/// Folding a list of inserts over a tree, in order.
pub open spec fn insert_all(root: JsonVal, pairs: Seq<(Seq<u8>, JsonVal)>) -> JsonVal
    decreases pairs.len(),
{
    if pairs.len() == 0 {
        root
    } else {
        insert_all(insert_at(root, path_segments(pairs[0].0), pairs[0].1), pairs.drop_first())
    }
}

} // verus!
