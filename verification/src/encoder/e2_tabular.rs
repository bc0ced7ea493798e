//! E2: tables for arrays of like objects.
//!
//! An array whose elements are objects that share a key list is written as a table, in which
//! the shared keys stand once. Only the outermost such array on a path becomes a table; an
//! array inside a cell stays minified JSON. All else is minified JSON with every lexeme as it
//! stands.
//!
//! # The body
//!
//! A table stands where its array would, and begins with a newline, which minified JSON never
//! contains. For an array of `N` elements it is
//!
//! ```text
//! \n
//! #<N>\t<key>\t<key>...\n
//! <row>\n                      N times
//! ```
//!
//! where a row is `+\t<value>\t<value>...` for an element whose keys are the hoisted ones in
//! order, and `*\t<M>\t<key>\t<value>...` for one with `M` other members. Keys are string
//! lexemes and values minified JSON; neither contains a tab. The count ends the table.
//!
//! [`crate::encoder::tables::tabular`] states the bytes, and [`crate::encoder::readback`] how
//! the document is recovered from them.
//!
//! # How it is made
//!
//! One pass over the tape surveys the arrays ([`analyze`]): elements are sorted into shapes by
//! a digest of their keys, and the most frequent shape is hoisted. A second pass writes the
//! body, and compares the keys themselves, so that a collision of digests cannot put a value
//! under the wrong key.

use crate::ascii::{COLON, HASH, LBRACE, LBRACKET, LF, PLUS, RBRACE, RBRACKET, STAR, TAB};
use crate::bytes::same_bytes;
use crate::encoder::fx::{
    fx_digest, fx_fed, fx_finish, fx_get, fx_hasher, fx_insert, fx_is_empty, fx_map, fx_write,
    fx_write_u8,
};
use crate::encoder::tables::{
    all_objects, codes_of, has_table, header, hoisted, is_leader, items_have_table, key_feed,
    key_fields, keys_of, lemma_leader_unique, machine_digest, members_have_table, members_of,
    occurrences, pair_fields, row, rows, shape_digest, table, tabular, tabular_items,
    tabular_members, value_fields,
};
use crate::encoder::writer::{
    key_gap, key_opened, lemma_prefixed, lemma_written_part, lemma_written_whole, open_value,
    prefixed, span_str, span_text, step, value_gap, value_opened, write_node, write_nodes,
    written, written_part, Open,
};
use crate::grammar::{Place, Tree};
use crate::json::{
    doc, gap, item_docs, items_recordable, items_resolvable, lemma_item_docs, lemma_member_docs,
    lexeme, member_docs, members_recordable, members_resolvable, minified, recordable,
    recordable_place, resolvable, Style,
};
use crate::tape::{item_nodes, member_nodes, node, tree_nodes, Node, NodeKind, Span, Tape};
use crate::text::{decimal, push_ascii, push_str, push_usize, sliceable};
use rustc_hash::FxBuildHasher;
use std::collections::HashMap;
use vstd::prelude::*;
use vstd::slice::slice_subrange;
use vstd::utf8::encode_utf8;

verus! {

// ---------------------------------------------------------------------------
// Shapes
// ---------------------------------------------------------------------------

/// What a hasher is fed for the keys at `spans`.
pub open spec fn span_feed(spans: Seq<Span>, s: Seq<u8>) -> Seq<(bool, Seq<u8>)>
    decreases spans.len(),
{
    if spans.len() == 0 {
        Seq::empty()
    } else {
        let before = span_feed(spans.drop_last(), s);
        (match span_text(s, spans.last()) {
            Some(l) => before.push((true, l)),
            None => before,
        }).push((false, seq![0xFFu8]))
    }
}

/// The digest of the keys at `spans`.
pub open spec fn span_digest(spans: Seq<Span>, s: Seq<u8>) -> u64 {
    fx_digest(usize::BITS as nat, span_feed(spans, s))
}

/// The digests of several key lists.
pub open spec fn span_codes(elems: Seq<Seq<Span>>, s: Seq<u8>) -> Seq<u64> {
    Seq::new(elems.len(), |i: int| span_digest(elems[i], s))
}

/// Hash the ordered key list into the shape key. A byte that no key contains, after each key,
/// keeps `["ab","c"]` distinct from `["a","bc"]`.
fn shape_hash(keys: &Vec<Span>, input: &str) -> (digest: u64)
    ensures
        digest == span_digest(keys@, encode_utf8(input@)),
{
    let ghost s = encode_utf8(input@);
    let mut hasher = fx_hasher();
    let mut i: usize = 0;
    proof {
        assert(keys@.take(0) =~= Seq::empty());
    }
    while i < keys.len()
        invariant
            s == encode_utf8(input@),
            i <= keys@.len(),
            fx_fed(hasher) == span_feed(keys@.take(i as int), s),
        decreases keys@.len() - i,
    {
        proof {
            assert(keys@.take(i + 1).drop_last() =~= keys@.take(i as int));
            assert(keys@.take(i + 1).last() == keys@[i as int]);
        }
        if let Some(text) = span_str(input, keys[i]) {
            fx_write(&mut hasher, text.as_bytes());
        }
        fx_write_u8(&mut hasher, 0xFF);
        i = i + 1;
    }
    proof {
        assert(keys@.take(i as int) =~= keys@);
    }
    fx_finish(&hasher)
}

/// Whether the code at `k` stands nowhere before.
spec fn appears_first(codes: Seq<u64>, k: int) -> bool {
    forall|j: int| 0 <= j < k ==> codes[j] != codes[k]
}

/// One distinct shape among an array's elements: how often it occurs, and the keys of the
/// first element that has it.
struct ShapeAcc {
    count: usize,
    header_keys: Vec<Span>,
}

/// The shapes of an array's elements so far, in order of first appearance, found again by
/// their digests. `elems` holds the key list of every element, `firsts` the position of the
/// first element of each shape.
struct Shapes {
    shape_ids: HashMap<u64, usize, FxBuildHasher>,
    shapes: Vec<ShapeAcc>,
    elems: Ghost<Seq<Seq<Span>>>,
    firsts: Ghost<Seq<int>>,
}

impl Shapes {
    /// Whether the shapes are those of `elems`.
    spec fn wf(self, s: Seq<u8>) -> bool {
        let codes = span_codes(self.elems@, s);
        let firsts = self.firsts@;
        &&& firsts.len() == self.shapes@.len() <= codes.len()
        &&& forall|k: int|
            #![trigger firsts[k]]
            0 <= k < firsts.len() ==> {
                &&& 0 <= firsts[k] < codes.len()
                &&& self.shapes@[k].count == occurrences(codes, codes[firsts[k]])
                &&& self.shapes@[k].header_keys@ == self.elems@[firsts[k]]
                &&& self.shape_ids@.dom().contains(codes[firsts[k]])
                &&& self.shape_ids@[codes[firsts[k]]] == k
                &&& appears_first(codes, firsts[k])
            }
        &&& forall|a: int, b: int|
            #![trigger firsts[a], firsts[b]]
            0 <= a < b < firsts.len() ==> firsts[a] < firsts[b]
        &&& forall|c: u64| #[trigger]
            self.shape_ids@.dom().contains(c) ==> {
                &&& self.shape_ids@[c] < firsts.len()
                &&& codes[firsts[self.shape_ids@[c] as int]] == c
            }
        &&& forall|j: int|
            0 <= j < codes.len() ==> self.shape_ids@.dom().contains(#[trigger] codes[j])
    }

    /// No elements yet.
    fn new(Ghost(s): Ghost<Seq<u8>>) -> (r: Self)
        ensures
            r.wf(s),
            r.elems@ == Seq::<Seq<Span>>::empty(),
    {
        Shapes {
            shape_ids: fx_map(),
            shapes: Vec::new(),
            elems: Ghost(Seq::empty()),
            firsts: Ghost(Seq::empty()),
        }
    }

    /// Record one element's key list, found again by its digest.
    fn intern(&mut self, hash: u64, keys: &Vec<Span>, Ghost(s): Ghost<Seq<u8>>)
        requires
            old(self).wf(s),
            hash == span_digest(keys@, s),
            old(self).elems@.len() < usize::MAX,
        ensures
            final(self).wf(s),
            final(self).elems@ == old(self).elems@.push(keys@),
    {
        let ghost codes = span_codes(self.elems@, s);
        let ghost grown = self.elems@.push(keys@);
        let ghost codes2 = span_codes(grown, s);
        proof {
            assert(codes2 =~= codes.push(hash));
            assert(codes2.drop_last() =~= codes);
            assert forall|c: u64| occurrences(codes2, c) == occurrences(codes, c) + (if c == hash {
                1nat
            } else {
                0nat
            }) by {}
            lemma_occurrences_bound(codes, hash);
        }
        match fx_get(&self.shape_ids, hash) {
            Some(id) => {
                let id: usize = *id;
                let ghost before = self.shapes@;
                let count: usize = self.shapes[id].count + 1;
                let header_keys = copy_spans(&self.shapes[id].header_keys);
                self.shapes.set(id, ShapeAcc { count, header_keys });
                self.elems = Ghost(grown);
                proof {
                    let firsts = self.firsts@;
                    assert forall|k: int| #![trigger firsts[k]] 0 <= k < firsts.len() implies {
                        &&& 0 <= firsts[k] < codes2.len()
                        &&& self.shapes@[k].count == occurrences(codes2, codes2[firsts[k]])
                        &&& self.shapes@[k].header_keys@ == self.elems@[firsts[k]]
                        &&& self.shape_ids@.dom().contains(codes2[firsts[k]])
                        &&& self.shape_ids@[codes2[firsts[k]]] == k
                        &&& appears_first(codes2, firsts[k])
                    } by {
                        assert(codes2[firsts[k]] == codes[firsts[k]]);
                        if k != id {
                            assert(codes[firsts[k]] != hash);
                        }
                    }
                    assert(codes2[firsts[id as int]] == hash);
                    assert forall|j: int| 0 <= j < codes2.len() implies
                        self.shape_ids@.dom().contains(#[trigger] codes2[j]) by {
                        if j < codes.len() {
                            assert(codes2[j] == codes[j]);
                        }
                    }
                }
            },
            None => {
                let id: usize = self.shapes.len();
                let ghost ids = self.shape_ids@;
                let ghost old_firsts = self.firsts@;
                fx_insert(&mut self.shape_ids, hash, id);
                self.shapes.push(ShapeAcc { count: 1, header_keys: copy_spans(keys) });
                self.elems = Ghost(grown);
                self.firsts = Ghost(old_firsts.push(codes.len() as int));
                proof {
                    let firsts = self.firsts@;
                    assert forall|j: int| 0 <= j < codes.len() implies codes[j] != hash by {
                        assert(ids.dom().contains(codes[j]));
                    }
                    lemma_absent(codes, hash);
                    assert forall|k: int| #![trigger firsts[k]] 0 <= k < firsts.len() implies {
                        &&& 0 <= firsts[k] < codes2.len()
                        &&& self.shapes@[k].count == occurrences(codes2, codes2[firsts[k]])
                        &&& self.shapes@[k].header_keys@ == self.elems@[firsts[k]]
                        &&& self.shape_ids@.dom().contains(codes2[firsts[k]])
                        &&& self.shape_ids@[codes2[firsts[k]]] == k
                        &&& appears_first(codes2, firsts[k])
                    } by {
                        if k < old_firsts.len() {
                            assert(firsts[k] == old_firsts[k]);
                            assert(codes2[firsts[k]] == codes[old_firsts[k]]);
                        }
                    }
                    assert forall|a: int, b: int|
                        #![trigger firsts[a], firsts[b]]
                        0 <= a < b < firsts.len() implies firsts[a] < firsts[b] by {
                        assert(firsts[a] == old_firsts[a]);
                        if b < old_firsts.len() {
                            assert(firsts[b] == old_firsts[b]);
                        }
                    }
                    assert forall|c: u64| #[trigger] self.shape_ids@.dom().contains(c) implies {
                        &&& self.shape_ids@[c] < firsts.len()
                        &&& codes2[firsts[self.shape_ids@[c] as int]] == c
                    } by {
                        if c != hash {
                            assert(ids.dom().contains(c));
                            assert(firsts[ids[c] as int] == old_firsts[ids[c] as int]);
                        }
                    }
                    assert forall|j: int| 0 <= j < codes2.len() implies
                        self.shape_ids@.dom().contains(#[trigger] codes2[j]) by {
                        if j < codes.len() {
                            assert(codes2[j] == codes[j]);
                        }
                    }
                }
            },
        }
    }

    /// The keys that the elements' table hoists, if two elements share the leading shape.
    fn dominant(&self, Ghost(s): Ghost<Seq<u8>>) -> (r: Option<Vec<Span>>)
        requires
            self.wf(s),
        ensures
            match hoisted(span_codes(self.elems@, s)) {
                Some(k) => r matches Some(keys) && 0 <= k < self.elems@.len() && keys@
                    == self.elems@[k],
                None => r is None,
            },
    {
        let ghost codes = span_codes(self.elems@, s);
        let ghost firsts = self.firsts@;
        if self.shapes.len() == 0 {
            proof {
                assert(codes.len() == 0) by {
                    if codes.len() > 0 {
                        assert(self.shape_ids@.dom().contains(codes[0]));
                    }
                }
            }
            return None;
        }
        let mut best: usize = 0;
        let mut k: usize = 1;
        while k < self.shapes.len()
            invariant
                best < k <= self.shapes@.len(),
                forall|i: int|
                    0 <= i < k ==> #[trigger] self.shapes@[i].count
                        <= self.shapes@[best as int].count,
                forall|i: int|
                    0 <= i < best ==> #[trigger] self.shapes@[i].count
                        < self.shapes@[best as int].count,
            decreases self.shapes@.len() - k,
        {
            if self.shapes[k].count > self.shapes[best].count {
                best = k;
            }
            k = k + 1;
        }
        let ghost lead = firsts[best as int];
        proof {
            assert(is_leader(codes, lead)) by {
                assert forall|i: int| 0 <= i < codes.len() implies occurrences(
                    codes,
                    #[trigger] codes[i],
                ) <= occurrences(codes, codes[lead]) by {
                    assert(self.shape_ids@.dom().contains(codes[i]));
                    let id = self.shape_ids@[codes[i]] as int;
                    assert(codes[firsts[id]] == codes[i]);
                    assert(self.shapes@[id].count <= self.shapes@[best as int].count);
                }
                assert forall|i: int| 0 <= i < lead implies occurrences(codes, #[trigger] codes[i])
                    < occurrences(codes, codes[lead]) by {
                    assert(self.shape_ids@.dom().contains(codes[i]));
                    let id = self.shape_ids@[codes[i]] as int;
                    assert(codes[firsts[id]] == codes[i]);
                    if firsts[id] > i {
                        assert(codes[i] != codes[firsts[id]]);
                    }
                    if id >= best {
                        assert(firsts[best as int] <= firsts[id]);
                    }
                    assert(self.shapes@[id].count < self.shapes@[best as int].count);
                }
            }
            assert forall|x: int| is_leader(codes, x) implies x == lead by {
                lemma_leader_unique(codes, x, lead);
            }
        }
        if self.shapes[best].count < 2 {
            return None;
        }
        Some(copy_spans(&self.shapes[best].header_keys))
    }
}

proof fn lemma_occurrences_bound(codes: Seq<u64>, c: u64)
    ensures
        occurrences(codes, c) <= codes.len(),
    decreases codes.len(),
{
    if codes.len() > 0 {
        lemma_occurrences_bound(codes.drop_last(), c);
    }
}

proof fn lemma_absent(codes: Seq<u64>, c: u64)
    requires
        forall|j: int| 0 <= j < codes.len() ==> codes[j] != c,
    ensures
        occurrences(codes, c) == 0,
    decreases codes.len(),
{
    if codes.len() > 0 {
        let shorter = codes.drop_last();
        assert forall|j: int| 0 <= j < shorter.len() implies shorter[j] != c by {
            assert(shorter[j] == codes[j]);
        }
        lemma_absent(shorter, c);
    }
}

/// A copy of a list of spans.
fn copy_spans(spans: &Vec<Span>) -> (r: Vec<Span>)
    ensures
        r@ == spans@,
{
    let mut r: Vec<Span> = Vec::new();
    let mut i: usize = 0;
    while i < spans.len()
        invariant
            i <= spans@.len(),
            r@ == spans@.take(i as int),
        decreases spans@.len() - i,
    {
        r.push(spans[i]);
        proof {
            assert(r@ =~= spans@.take(i + 1));
        }
        i = i + 1;
    }
    proof {
        assert(spans@.take(i as int) =~= spans@);
    }
    r
}

// ---------------------------------------------------------------------------
// Survey: which arrays become tables
// ---------------------------------------------------------------------------

/// What is known of an open container.
#[verifier::ext_equal]
pub struct Gather {
    pub is_array: bool,
    /// Index of the container's `Start` node.
    pub start: int,
    /// The keys of an object so far.
    pub keys: Seq<Span>,
    /// How many elements an array has so far.
    pub count: int,
    /// Whether all of them are objects.
    pub all_objects: bool,
    /// The key lists of those that are.
    pub elems: Seq<Seq<Span>>,
}

/// The plan for an array: where it ends, and the keys to hoist.
#[verifier::ext_equal]
pub struct Plan {
    pub end: int,
    pub keys: Seq<Span>,
}

pub open spec fn opened(is_array: bool, start: int) -> Gather {
    Gather {
        is_array,
        start,
        keys: Seq::empty(),
        count: 0,
        all_objects: true,
        elems: Seq::empty(),
    }
}

/// An array with one more element: `object` holds its keys if it is an object.
pub open spec fn with_element(g: Gather, object: Option<Seq<Span>>) -> Gather {
    match object {
        Some(keys) => Gather { count: g.count + 1, elems: g.elems.push(keys), ..g },
        None => Gather { count: g.count + 1, all_objects: false, ..g },
    }
}

/// The open containers once a value inside them is complete.
pub open spec fn after_value(stack: Seq<Gather>, object: Option<Seq<Span>>) -> Seq<Gather> {
    if stack.len() > 0 && stack.last().is_array {
        stack.drop_last().push(with_element(stack.last(), object))
    } else {
        stack
    }
}

/// The open containers once a key has been read.
pub open spec fn after_key(stack: Seq<Gather>, key: Span) -> Seq<Gather> {
    if stack.len() > 0 {
        stack.drop_last().push(Gather { keys: stack.last().keys.push(key), ..stack.last() })
    } else {
        stack
    }
}

/// The plan for a container that ends at node `end`.
pub open spec fn plan_of(g: Gather, end: int, s: Seq<u8>) -> Option<Plan> {
    if g.is_array && g.all_objects && g.count >= 2 {
        match hoisted(span_codes(g.elems, s)) {
            Some(k) => if g.elems[k].len() > 0 {
                Some(Plan { end, keys: g.elems[k] })
            } else {
                None
            },
            None => None,
        }
    } else {
        None
    }
}

/// The plans found in a run of nodes that starts at node `at`, given the containers open
/// before it and the plans found so far.
pub open spec fn survey(
    nodes: Seq<Node>,
    s: Seq<u8>,
    at: int,
    stack: Seq<Gather>,
    plans: Map<int, Plan>,
) -> Map<int, Plan>
    decreases nodes.len(),
{
    if nodes.len() == 0 {
        plans
    } else {
        let rest = nodes.drop_first();
        match nodes[0].kind {
            NodeKind::ObjectStart { .. } => survey(
                rest,
                s,
                at + 1,
                stack.push(opened(false, at)),
                plans,
            ),
            NodeKind::ArrayStart { .. } => survey(
                rest,
                s,
                at + 1,
                stack.push(opened(true, at)),
                plans,
            ),
            NodeKind::Key => survey(rest, s, at + 1, after_key(stack, nodes[0].span), plans),
            NodeKind::Null | NodeKind::Bool(_) | NodeKind::Number | NodeKind::String => survey(
                rest,
                s,
                at + 1,
                after_value(stack, None),
                plans,
            ),
            NodeKind::ObjectEnd => if stack.len() == 0 {
                survey(rest, s, at + 1, stack, plans)
            } else {
                survey(
                    rest,
                    s,
                    at + 1,
                    after_value(stack.drop_last(), Some(stack.last().keys)),
                    plans,
                )
            },
            NodeKind::ArrayEnd => if stack.len() == 0 {
                survey(rest, s, at + 1, stack, plans)
            } else {
                survey(
                    rest,
                    s,
                    at + 1,
                    after_value(stack.drop_last(), None),
                    match plan_of(stack.last(), at, s) {
                        Some(plan) => plans.insert(stack.last().start, plan),
                        None => plans,
                    },
                )
            },
        }
    }
}

/// The plan for one array, as it is kept: where it ends, and the keys to hoist.
struct TablePlan {
    end_index: usize,
    header_keys: Vec<Span>,
}

/// One open container during the survey.
struct AnalyzeFrame {
    is_array: bool,
    start_index: usize,
    keys: Vec<Span>,
    all_objects: bool,
    elem_count: usize,
    shapes: Shapes,
}

impl AnalyzeFrame {
    spec fn gather(self) -> Gather {
        Gather {
            is_array: self.is_array,
            start: self.start_index as int,
            keys: self.keys@,
            count: self.elem_count as int,
            all_objects: self.all_objects,
            elems: self.shapes.elems@,
        }
    }

    /// A container that has just been opened.
    fn open(is_array: bool, start_index: usize, Ghost(s): Ghost<Seq<u8>>) -> (frame: Self)
        ensures
            frame.gather() == opened(is_array, start_index as int),
            frame.shapes.wf(s),
    {
        AnalyzeFrame {
            is_array,
            start_index,
            keys: Vec::new(),
            all_objects: true,
            elem_count: 0,
            shapes: Shapes::new(Ghost(s)),
        }
    }
}

spec fn gathers(stack: Seq<AnalyzeFrame>) -> Seq<Gather> {
    Seq::new(stack.len(), |i: int| stack[i].gather())
}

/// Whether the frames are consistent, with no more elements in any than nodes read.
spec fn frames_wf(stack: Seq<AnalyzeFrame>, s: Seq<u8>, read: int) -> bool {
    forall|i: int|
        #![trigger stack[i]]
        0 <= i < stack.len() ==> stack[i].shapes.wf(s) && stack[i].elem_count <= read
            && stack[i].shapes.elems@.len() <= stack[i].elem_count
}

/// Whether the kept plans are `plans`.
spec fn plans_agree(kept: Map<u64, TablePlan>, plans: Map<int, Plan>) -> bool {
    &&& forall|k: u64| #[trigger]
        kept.dom().contains(k) ==> {
            &&& plans.dom().contains(k as int)
            &&& plans[k as int].end == kept[k].end_index
            &&& plans[k as int].keys == kept[k].header_keys@
        }
    &&& forall|k: int| #[trigger]
        plans.dom().contains(k) ==> 0 <= k <= u64::MAX && kept.dom().contains(k as u64)
}

/// Walk the tape once and return a plan for every array that becomes a table, by the index
/// of its `Start` node.
fn analyze(nodes: &[Node], input: &str) -> (kept: HashMap<u64, TablePlan, FxBuildHasher>)
    ensures
        plans_agree(
            kept@,
            survey(nodes@, encode_utf8(input@), 0, Seq::empty(), Map::empty()),
        ),
{
    let ghost s = encode_utf8(input@);
    let ghost all = nodes@;
    let mut plans: HashMap<u64, TablePlan, FxBuildHasher> = fx_map();
    let mut stack: Vec<AnalyzeFrame> = Vec::new();
    let ghost mut found: Map<int, Plan> = Map::empty();
    let ghost wanted = survey(all, s, 0, Seq::empty(), Map::empty());
    let n: usize = nodes.len();
    let mut i: usize = 0;
    proof {
        assert(all.skip(0) =~= all);
        assert(gathers(stack@) =~= Seq::empty());
    }
    while i < n
        invariant
            all == nodes@,
            n == all.len(),
            s == encode_utf8(input@),
            i <= n,
            frames_wf(stack@, s, i as int),
            plans_agree(plans@, found),
            survey(all.skip(i as int), s, i as int, gathers(stack@), found) == wanted,
        decreases n - i,
    {
        let ghost gathered = gathers(stack@);
        let ghost rest = all.skip(i as int);
        proof {
            assert(rest[0] == all[i as int]);
            assert(rest.drop_first() =~= all.skip(i + 1));
        }
        match nodes[i].kind {
            NodeKind::ObjectStart { .. } => {
                stack.push(AnalyzeFrame::open(false, i, Ghost(s)));
                proof {
                    assert(gathers(stack@) =~= gathered.push(opened(false, i as int)));
                }
            },
            NodeKind::ArrayStart { .. } => {
                stack.push(AnalyzeFrame::open(true, i, Ghost(s)));
                proof {
                    assert(gathers(stack@) =~= gathered.push(opened(true, i as int)));
                }
            },
            NodeKind::Key => {
                let span = nodes[i].span;
                if let Some(mut top) = stack.pop() {
                    top.keys.push(span);
                    stack.push(top);
                }
                proof {
                    assert(gathers(stack@) =~= after_key(gathered, span));
                }
            },
            NodeKind::Null | NodeKind::Bool(_) | NodeKind::Number | NodeKind::String => {
                count_other(&mut stack, Ghost(s), Ghost(i as int));
            },
            NodeKind::ObjectEnd => {
                if let Some(done) = stack.pop() {
                    proof {
                        assert(gathers(stack@) =~= gathered.drop_last());
                        assert(gathered.last() == done.gather());
                    }
                    count_object(&mut stack, &done.keys, input, Ghost(i as int));
                }
            },
            NodeKind::ArrayEnd => {
                if let Some(done) = stack.pop() {
                    proof {
                        assert(gathers(stack@) =~= gathered.drop_last());
                        assert(gathered.last() == done.gather());
                    }
                    if let Some(plan) = finish_array(&done, i, Ghost(s)) {
                        let ghost spec_plan = plan_of(done.gather(), i as int, s)->0;
                        fx_insert(&mut plans, done.start_index as u64, plan);
                        proof {
                            found = found.insert(done.start_index as int, spec_plan);
                        }
                    }
                    count_other(&mut stack, Ghost(s), Ghost(i as int));
                }
            },
        }
        i = i + 1;
    }
    proof {
        assert(all.skip(i as int) =~= Seq::empty());
    }
    plans
}

/// Count an element that is not an object in the innermost container, if that is an array.
fn count_other(stack: &mut Vec<AnalyzeFrame>, Ghost(s): Ghost<Seq<u8>>, Ghost(read): Ghost<int>)
    requires
        frames_wf(old(stack)@, s, read),
        0 <= read < usize::MAX,
    ensures
        frames_wf(final(stack)@, s, read + 1),
        gathers(final(stack)@) == after_value(gathers(old(stack)@), None),
{
    let ghost before = stack@;
    if let Some(mut top) = stack.pop() {
        proof {
            assert(before.last() == top);
            assert(gathers(before).last() == top.gather());
            assert(gathers(stack@) =~= gathers(before).drop_last());
        }
        if top.is_array {
            top.elem_count = top.elem_count + 1;
            top.all_objects = false;
        }
        stack.push(top);
    }
    proof {
        assert(gathers(stack@) =~= after_value(gathers(before), None));
    }
}

/// Count an object with the given keys in the innermost container, if that is an array.
fn count_object(
    stack: &mut Vec<AnalyzeFrame>,
    keys: &Vec<Span>,
    input: &str,
    Ghost(read): Ghost<int>,
)
    requires
        frames_wf(old(stack)@, encode_utf8(input@), read),
        0 <= read < usize::MAX,
    ensures
        frames_wf(final(stack)@, encode_utf8(input@), read + 1),
        gathers(final(stack)@) == after_value(gathers(old(stack)@), Some(keys@)),
{
    let ghost s = encode_utf8(input@);
    let ghost before = stack@;
    if let Some(mut top) = stack.pop() {
        proof {
            assert(before.last() == top);
            assert(gathers(before).last() == top.gather());
            assert(gathers(stack@) =~= gathers(before).drop_last());
        }
        if top.is_array {
            top.elem_count = top.elem_count + 1;
            let hash: u64 = shape_hash(keys, input);
            top.shapes.intern(hash, keys, Ghost(s));
        }
        stack.push(top);
    }
    proof {
        assert(gathers(stack@) =~= after_value(gathers(before), Some(keys@)));
    }
}

/// Decide whether a closed array becomes a table and, if so, build its plan.
fn finish_array(frame: &AnalyzeFrame, end_index: usize, Ghost(s): Ghost<Seq<u8>>) -> (r: Option<
    TablePlan,
>)
    requires
        frame.shapes.wf(s),
    ensures
        match plan_of(frame.gather(), end_index as int, s) {
            Some(plan) => r matches Some(kept) && kept.end_index == plan.end
                && kept.header_keys@ == plan.keys,
            None => r is None,
        },
{
    if !frame.is_array || !frame.all_objects || frame.elem_count < 2 {
        return None;
    }
    match frame.shapes.dominant(Ghost(s)) {
        None => None,
        Some(header_keys) => {
            if header_keys.len() == 0 {
                None
            } else {
                Some(TablePlan { end_index, header_keys })
            }
        },
    }
}

// ---------------------------------------------------------------------------
// The survey of a tree
// ---------------------------------------------------------------------------

/// The span that a key's node records.
pub open spec fn span_of(place: Place) -> Span {
    Span { start: place.start as u32, end: place.end as u32 }
}

/// The spans of an object's keys.
pub open spec fn key_spans(members: Seq<(Place, Tree)>) -> Seq<Span> {
    Seq::new(members.len(), |i: int| span_of(members[i].0))
}

/// The keys of a tree, if it is an object.
pub open spec fn object_keys(tree: Tree) -> Option<Seq<Span>> {
    match tree {
        Tree::Object { open, members, close } => Some(key_spans(members)),
        _ => None,
    }
}

/// How many nodes a tree has.
pub open spec fn size(tree: Tree) -> int {
    tree_nodes(tree, 0).len() as int
}

/// An array with the elements `items` added.
pub open spec fn with_items(g: Gather, items: Seq<Tree>) -> Gather
    decreases items.len(),
{
    if items.len() == 0 {
        g
    } else {
        with_items(with_element(g, object_keys(items[0])), items.drop_first())
    }
}

/// The plan for an array with the given elements whose `Start` node stands at `at`.
pub open spec fn array_plan(items: Seq<Tree>, at: int, s: Seq<u8>) -> Option<Plan> {
    plan_of(with_items(opened(true, at), items), at + 1 + items_size(items), s)
}

/// How many nodes the elements of an array have.
pub open spec fn items_size(items: Seq<Tree>) -> int {
    item_nodes(items, 0).len() as int
}

/// The plans for the arrays of a tree whose first node stands at `at`.
pub open spec fn planned(tree: Tree, at: int, s: Seq<u8>) -> Map<int, Plan>
    decreases tree,
{
    match tree {
        Tree::Leaf { kind, place } => Map::empty(),
        Tree::Array { open, items, close } => {
            let inner = planned_items(items, at + 1, s);
            match array_plan(items, at, s) {
                Some(plan) => inner.insert(at, plan),
                None => inner,
            }
        },
        Tree::Object { open, members, close } => planned_members(members, at + 1, s),
    }
}

pub open spec fn planned_items(items: Seq<Tree>, at: int, s: Seq<u8>) -> Map<int, Plan>
    decreases items,
{
    if items.len() == 0 {
        Map::empty()
    } else {
        planned(items[0], at, s).union_prefer_right(
            planned_items(items.drop_first(), at + size(items[0]), s),
        )
    }
}

pub open spec fn planned_members(members: Seq<(Place, Tree)>, at: int, s: Seq<u8>) -> Map<
    int,
    Plan,
>
    decreases members,
{
    if members.len() == 0 {
        Map::empty()
    } else {
        planned(members[0].1, at + 1, s).union_prefer_right(
            planned_members(members.drop_first(), at + 1 + size(members[0].1), s),
        )
    }
}

/// The number of nodes does not depend on the depth.
pub proof fn lemma_size(tree: Tree, depth: int)
    ensures
        tree_nodes(tree, depth).len() == size(tree),
        size(tree) >= 1,
    decreases tree,
{
    match tree {
        Tree::Leaf { kind, place } => {},
        Tree::Array { open, items, close } => {
            lemma_items_size(items, depth + 1);
            lemma_items_size(items, 1);
        },
        Tree::Object { open, members, close } => {
            lemma_members_size(members, depth + 1);
            lemma_members_size(members, 1);
        },
    }
}

proof fn lemma_items_size(items: Seq<Tree>, depth: int)
    ensures
        item_nodes(items, depth).len() == items_size(items),
    decreases items,
{
    if items.len() > 0 {
        lemma_size(items[0], depth);
        lemma_items_size(items.drop_first(), depth);
    }
}

pub open spec fn members_size(members: Seq<(Place, Tree)>) -> int {
    member_nodes(members, 0).len() as int
}

proof fn lemma_members_size(members: Seq<(Place, Tree)>, depth: int)
    ensures
        member_nodes(members, depth).len() == members_size(members),
    decreases members,
{
    if members.len() > 0 {
        lemma_size(members[0].1, depth);
        lemma_members_size(members.drop_first(), depth);
    }
}

/// Surveying the nodes of a tree completes one value and finds the plans of the tree.
#[verifier::spinoff_prover]
#[verifier::rlimit(40)]
proof fn lemma_survey_tree(
    tree: Tree,
    depth: int,
    after: Seq<Node>,
    s: Seq<u8>,
    at: int,
    stack: Seq<Gather>,
    plans: Map<int, Plan>,
)
    requires
        recordable(tree),
    ensures
        survey(tree_nodes(tree, depth) + after, s, at, stack, plans) == survey(
            after,
            s,
            at + size(tree),
            after_value(stack, object_keys(tree)),
            plans.union_prefer_right(planned(tree, at, s)),
        ),
    decreases tree,
{
    let all = tree_nodes(tree, depth) + after;
    lemma_size(tree, depth);
    match tree {
        Tree::Leaf { kind, place } => {
            assert(all.drop_first() =~= after);
            assert(plans.union_prefer_right(planned(tree, at, s)) =~= plans);
        },
        Tree::Array { open, items, close } => {
            let end = node(NodeKind::ArrayEnd, close, close + 1, depth);
            let rest = seq![end] + after;
            assert(all.drop_first() =~= item_nodes(items, depth + 1) + rest);
            lemma_items_size(items, depth + 1);
            let g = opened(true, at);
            lemma_survey_items(items, depth + 1, rest, s, at + 1, stack, g, plans);
            let full = with_items(g, items);
            lemma_with_items_start(g, items);
            let inner = plans.union_prefer_right(planned_items(items, at + 1, s));
            let last = at + 1 + items_size(items);
            assert(rest.drop_first() =~= after);
            assert(stack.push(full).drop_last() =~= stack);
            match array_plan(items, at, s) {
                Some(plan) => {
                    assert(inner.insert(at, plan) =~= plans.union_prefer_right(
                        planned(tree, at, s),
                    ));
                },
                None => {
                    assert(inner =~= plans.union_prefer_right(planned(tree, at, s)));
                },
            }
        },
        Tree::Object { open, members, close } => {
            let end = node(NodeKind::ObjectEnd, close, close + 1, depth);
            let rest = seq![end] + after;
            assert(all.drop_first() =~= member_nodes(members, depth + 1) + rest);
            lemma_members_size(members, depth + 1);
            let g = opened(false, at);
            lemma_survey_members(members, depth + 1, rest, s, at + 1, stack, g, plans);
            let full = Gather { keys: g.keys + key_spans(members), ..g };
            assert(full.keys =~= key_spans(members));
            assert(rest.drop_first() =~= after);
            assert(stack.push(full).drop_last() =~= stack);
        },
    }
}

proof fn lemma_with_items_start(g: Gather, items: Seq<Tree>)
    ensures
        with_items(g, items).start == g.start,
        with_items(g, items).is_array == g.is_array,
    decreases items.len(),
{
    if items.len() > 0 {
        lemma_with_items_start(with_element(g, object_keys(items[0])), items.drop_first());
    }
}

#[verifier::spinoff_prover]
#[verifier::rlimit(40)]
proof fn lemma_survey_items(
    items: Seq<Tree>,
    depth: int,
    after: Seq<Node>,
    s: Seq<u8>,
    at: int,
    outer: Seq<Gather>,
    g: Gather,
    plans: Map<int, Plan>,
)
    requires
        items_recordable(items),
        g.is_array,
    ensures
        survey(item_nodes(items, depth) + after, s, at, outer.push(g), plans) == survey(
            after,
            s,
            at + items_size(items),
            outer.push(with_items(g, items)),
            plans.union_prefer_right(planned_items(items, at, s)),
        ),
    decreases items,
{
    if items.len() == 0 {
        assert(item_nodes(items, depth) + after =~= after);
        assert(plans.union_prefer_right(planned_items(items, at, s)) =~= plans);
    } else {
        let first = items[0];
        let others = items.drop_first();
        let rest = item_nodes(others, depth) + after;
        assert(item_nodes(items, depth) + after =~= tree_nodes(first, depth) + rest);
        lemma_survey_tree(first, depth, rest, s, at, outer.push(g), plans);
        let g2 = with_element(g, object_keys(first));
        assert(after_value(outer.push(g), object_keys(first)) =~= outer.push(g2));
        let plans2 = plans.union_prefer_right(planned(first, at, s));
        lemma_survey_items(others, depth, after, s, at + size(first), outer, g2, plans2);
        assert(plans2.union_prefer_right(planned_items(others, at + size(first), s))
            =~= plans.union_prefer_right(planned_items(items, at, s)));
        lemma_size(first, 0);
    }
}

#[verifier::spinoff_prover]
#[verifier::rlimit(40)]
proof fn lemma_survey_members(
    members: Seq<(Place, Tree)>,
    depth: int,
    after: Seq<Node>,
    s: Seq<u8>,
    at: int,
    outer: Seq<Gather>,
    g: Gather,
    plans: Map<int, Plan>,
)
    requires
        members_recordable(members),
        !g.is_array,
    ensures
        survey(member_nodes(members, depth) + after, s, at, outer.push(g), plans) == survey(
            after,
            s,
            at + members_size(members),
            outer.push((Gather { keys: g.keys + key_spans(members), ..g })),
            plans.union_prefer_right(planned_members(members, at, s)),
        ),
    decreases members,
{
    if members.len() == 0 {
        assert(member_nodes(members, depth) + after =~= after);
        assert(plans.union_prefer_right(planned_members(members, at, s)) =~= plans);
        assert(g.keys + key_spans(members) =~= g.keys);
    } else {
        let (place, first) = members[0];
        let others = members.drop_first();
        let rest = member_nodes(others, depth) + after;
        let all = member_nodes(members, depth) + after;
        assert(all.drop_first() =~= tree_nodes(first, depth) + rest);
        let g2 = Gather { keys: g.keys.push(span_of(place)), ..g };
        assert(after_key(outer.push(g), span_of(place)) =~= outer.push(g2));
        lemma_survey_tree(first, depth, rest, s, at + 1, outer.push(g2), plans);
        assert(after_value(outer.push(g2), object_keys(first)) =~= outer.push(g2));
        let plans2 = plans.union_prefer_right(planned(first, at + 1, s));
        lemma_survey_members(others, depth, after, s, at + 1 + size(first), outer, g2, plans2);
        assert(plans2.union_prefer_right(planned_members(others, at + 1 + size(first), s))
            =~= plans.union_prefer_right(planned_members(members, at, s)));
        assert(g2.keys + key_spans(others) =~= g.keys + key_spans(members));
        lemma_size(first, 0);
    }
}

// ---------------------------------------------------------------------------
// Finding values on the tape
// ---------------------------------------------------------------------------

/// Whether the tape holds `part` from node `at` on.
pub open spec fn tape_holds(nodes: Seq<Node>, at: int, part: Seq<Node>) -> bool {
    0 <= at && at + part.len() <= nodes.len() && nodes.subrange(at, at + part.len()) == part
}

proof fn lemma_tape_holds_concat(nodes: Seq<Node>, at: int, a: Seq<Node>, b: Seq<Node>)
    requires
        tape_holds(nodes, at, a + b),
    ensures
        tape_holds(nodes, at, a),
        tape_holds(nodes, at + a.len(), b),
{
    let w = nodes.subrange(at, at + (a + b).len());
    assert(nodes.subrange(at, at + a.len()) =~= a) by {
        assert forall|k: int| 0 <= k < a.len() implies nodes[at + k] == a[k] by {
            assert(w[k] == (a + b)[k]);
        }
    }
    assert(nodes.subrange(at + a.len(), at + a.len() + b.len()) =~= b) by {
        assert forall|k: int| 0 <= k < b.len() implies nodes[at + a.len() + k] == b[k] by {
            assert(w[a.len() + k] == (a + b)[a.len() + k]);
        }
    }
}

/// How many containers a run of nodes opens and does not close.
spec fn balance(nodes: Seq<Node>) -> int
    decreases nodes.len(),
{
    if nodes.len() == 0 {
        0
    } else {
        balance(nodes.drop_last()) + weight(nodes.last().kind)
    }
}

spec fn weight(kind: NodeKind) -> int {
    match kind {
        NodeKind::ObjectStart { .. } | NodeKind::ArrayStart { .. } => 1,
        NodeKind::ObjectEnd | NodeKind::ArrayEnd => -1,
        _ => 0,
    }
}

proof fn lemma_balance_concat(a: Seq<Node>, b: Seq<Node>)
    ensures
        balance(a + b) == balance(a) + balance(b),
    decreases b.len(),
{
    if b.len() == 0 {
        assert(a + b =~= a);
    } else {
        assert((a + b).drop_last() =~= a + b.drop_last());
        lemma_balance_concat(a, b.drop_last());
    }
}

/// Every prefix of a run of nodes closes no more than it opens.
spec fn never_below(nodes: Seq<Node>) -> bool {
    forall|k: int| 0 <= k <= nodes.len() ==> balance(#[trigger] nodes.take(k)) >= 0
}

proof fn lemma_never_below_concat(a: Seq<Node>, b: Seq<Node>)
    requires
        never_below(a),
        never_below(b),
        balance(a) == 0,
    ensures
        never_below(a + b),
{
    assert forall|k: int| 0 <= k <= (a + b).len() implies balance(#[trigger] (a + b).take(k)) >= 0 by {
        if k <= a.len() {
            assert((a + b).take(k) =~= a.take(k));
        } else {
            assert((a + b).take(k) =~= a + b.take(k - a.len()));
            lemma_balance_concat(a, b.take(k - a.len()));
        }
    }
}

proof fn lemma_balance_one(n: Node)
    ensures
        balance(seq![n]) == weight(n.kind),
{
    assert(seq![n].drop_last() =~= Seq::<Node>::empty());
    assert(balance(Seq::<Node>::empty()) == 0);
}

/// A tree closes what it opens; a container does so with its last node and not before.
proof fn lemma_balance_tree(tree: Tree, depth: int)
    requires
        recordable(tree),
    ensures
        balance(tree_nodes(tree, depth)) == 0,
        never_below(tree_nodes(tree, depth)),
        !(tree is Leaf) ==> forall|k: int|
            0 < k < tree_nodes(tree, depth).len() ==> balance(
                #[trigger] tree_nodes(tree, depth).take(k),
            ) >= 1,
    decreases tree,
{
    let nodes = tree_nodes(tree, depth);
    match tree {
        Tree::Leaf { kind, place } => {
            lemma_balance_one(nodes[0]);
            assert(nodes =~= seq![nodes[0]]);
            assert forall|k: int| 0 <= k <= nodes.len() implies balance(#[trigger] nodes.take(k))
                >= 0 by {
                if k == 0 {
                    assert(nodes.take(k) =~= Seq::<Node>::empty());
                } else {
                    assert(nodes.take(k) =~= nodes);
                }
            }
        },
        Tree::Array { open, items, close } => {
            let inner = item_nodes(items, depth + 1);
            lemma_balance_items(items, depth + 1);
            lemma_balance_around(nodes, inner);
        },
        Tree::Object { open, members, close } => {
            let inner = member_nodes(members, depth + 1);
            lemma_balance_members(members, depth + 1);
            lemma_balance_around(nodes, inner);
        },
    }
}

proof fn lemma_balance_around(nodes: Seq<Node>, inner: Seq<Node>)
    requires
        nodes.len() == inner.len() + 2,
        nodes == seq![nodes[0]] + inner + seq![nodes.last()],
        weight(nodes[0].kind) == 1,
        weight(nodes.last().kind) == -1,
        balance(inner) == 0,
        never_below(inner),
    ensures
        balance(nodes) == 0,
        never_below(nodes),
        forall|k: int| 0 < k < nodes.len() ==> balance(#[trigger] nodes.take(k)) >= 1,
{
    let first = seq![nodes[0]];
    lemma_balance_one(nodes[0]);
    lemma_balance_one(nodes.last());
    lemma_balance_concat(first, inner);
    lemma_balance_concat(first + inner, seq![nodes.last()]);
    assert forall|k: int| 0 < k < nodes.len() implies balance(#[trigger] nodes.take(k)) >= 1 by {
        assert(nodes.take(k) =~= first + inner.take(k - 1));
        lemma_balance_concat(first, inner.take(k - 1));
    }
    assert(nodes.take(0) =~= Seq::<Node>::empty());
    assert(nodes.take(nodes.len() as int) =~= nodes);
    assert forall|k: int| 0 <= k <= nodes.len() implies balance(#[trigger] nodes.take(k)) >= 0 by {
        if 0 < k < nodes.len() {
            assert(balance(nodes.take(k)) >= 1);
        }
    }
}

proof fn lemma_balance_items(items: Seq<Tree>, depth: int)
    requires
        items_recordable(items),
    ensures
        balance(item_nodes(items, depth)) == 0,
        never_below(item_nodes(items, depth)),
    decreases items,
{
    if items.len() == 0 {
        let none = item_nodes(items, depth);
        assert forall|k: int| 0 <= k <= none.len() implies balance(#[trigger] none.take(k)) >= 0 by {
            assert(none.take(k) =~= Seq::<Node>::empty());
        }
    } else {
        lemma_balance_tree(items[0], depth);
        lemma_balance_items(items.drop_first(), depth);
        lemma_balance_concat(tree_nodes(items[0], depth), item_nodes(items.drop_first(), depth));
        lemma_never_below_concat(
            tree_nodes(items[0], depth),
            item_nodes(items.drop_first(), depth),
        );
    }
}

proof fn lemma_balance_members(members: Seq<(Place, Tree)>, depth: int)
    requires
        members_recordable(members),
    ensures
        balance(member_nodes(members, depth)) == 0,
        never_below(member_nodes(members, depth)),
    decreases members,
{
    if members.len() == 0 {
        let none = member_nodes(members, depth);
        assert forall|k: int| 0 <= k <= none.len() implies balance(#[trigger] none.take(k)) >= 0 by {
            assert(none.take(k) =~= Seq::<Node>::empty());
        }
    } else {
        let key = node(NodeKind::Key, members[0].0.start, members[0].0.end, depth);
        let first = tree_nodes(members[0].1, depth);
        let rest = member_nodes(members.drop_first(), depth);
        lemma_balance_one(key);
        lemma_balance_tree(members[0].1, depth);
        lemma_balance_members(members.drop_first(), depth);
        assert forall|k: int| 0 <= k <= 1 implies balance(#[trigger] seq![key].take(k)) >= 0 by {
            if k == 0 {
                assert(seq![key].take(k) =~= Seq::<Node>::empty());
            } else {
                assert(seq![key].take(k) =~= seq![key]);
            }
        }
        lemma_never_below_concat(seq![key], first);
        lemma_balance_concat(seq![key], first);
        lemma_never_below_concat(seq![key] + first, rest);
        lemma_balance_concat(seq![key] + first, rest);
    }
}

/// The index of the last node of the value that begins at `v`: for a scalar `v` itself, for a
/// container its `End` node.
fn value_end(nodes: &[Node], v: usize, Ghost(tree): Ghost<Tree>, Ghost(depth): Ghost<int>) -> (end:
    usize)
    requires
        recordable(tree),
        tape_holds(nodes@, v as int, tree_nodes(tree, depth)),
    ensures
        end == v + size(tree) - 1,
{
    let ghost all = nodes@;
    let ghost part = tree_nodes(tree, depth);
    let n: usize = nodes.len();
    proof {
        lemma_size(tree, depth);
        lemma_balance_tree(tree, depth);
        assert(part[0] == all[v as int]) by {
            assert(all.subrange(v as int, v + part.len())[0] == all[v as int]);
        }
    }
    match nodes[v].kind {
        NodeKind::ObjectStart { .. } | NodeKind::ArrayStart { .. } => {},
        _ => {
            return v;
        },
    }
    let mut open: usize = 1;
    let mut k: usize = v + 1;
    proof {
        assert(part.take(1) =~= seq![part[0]]);
        lemma_balance_one(part[0]);
    }
    loop
        invariant
            all == nodes@,
            n == all.len(),
            part.len() == size(tree),
            tape_holds(all, v as int, part),
            v < k < v + part.len(),
            open == balance(part.take(k - v)),
            1 <= open <= k - v,
            balance(part) == 0,
            forall|j: int| 0 < j < part.len() ==> balance(#[trigger] part.take(j)) >= 1,
        decreases v + part.len() - k,
    {
        let ghost taken = part.take(k - v);
        proof {
            assert(part[k - v] == all[k as int]) by {
                assert(all.subrange(v as int, v + part.len())[k - v] == all[k as int]);
            }
            assert(part.take(k - v + 1).drop_last() =~= taken);
            assert(part.take(part.len() as int) =~= part);
        }
        match nodes[k].kind {
            NodeKind::ObjectStart { .. } | NodeKind::ArrayStart { .. } => {
                open = open + 1;
            },
            NodeKind::ObjectEnd | NodeKind::ArrayEnd => {
                open = open - 1;
                if open == 0 {
                    return k;
                }
            },
            _ => {},
        }
        k = k + 1;
    }
}

/// Where the `k`-th element of an array stands whose elements start at node `at`.
pub open spec fn item_at(items: Seq<Tree>, at: int, k: int) -> int {
    at + items_size(items.take(k))
}

/// The elements before and from the `k`-th on.
proof fn lemma_items_split(items: Seq<Tree>, k: int, depth: int)
    requires
        0 <= k <= items.len(),
    ensures
        item_nodes(items, depth) == item_nodes(items.take(k), depth) + item_nodes(
            items.skip(k),
            depth,
        ),
    decreases k,
{
    if k == 0 {
        assert(items.take(0) =~= Seq::empty());
        assert(items.skip(0) =~= items);
        assert(item_nodes(items.take(0), depth) =~= Seq::empty());
        assert(Seq::<Node>::empty() + item_nodes(items, depth) =~= item_nodes(items, depth));
    } else {
        let others = items.drop_first();
        lemma_items_split(others, k - 1, depth);
        assert(items.take(k).drop_first() =~= others.take(k - 1));
        assert(items.skip(k) =~= others.skip(k - 1));
        assert(items.take(k)[0] == items[0]);
        let a = tree_nodes(items[0], depth);
        let b = item_nodes(others.take(k - 1), depth);
        let c = item_nodes(others.skip(k - 1), depth);
        assert(a + (b + c) =~= a + b + c);
    }
}

/// The `k`-th element stands on the tape where [`item_at`] says.
proof fn lemma_item_held(nodes: Seq<Node>, at: int, items: Seq<Tree>, k: int, depth: int)
    requires
        tape_holds(nodes, at, item_nodes(items, depth)),
        0 <= k < items.len(),
    ensures
        tape_holds(nodes, item_at(items, at, k), tree_nodes(items[k], depth)),
        item_at(items, at, k + 1) == item_at(items, at, k) + size(items[k]),
        item_at(items, at, k + 1) <= at + items_size(items),
{
    lemma_items_split(items, k + 1, 0);
    lemma_items_split(items, k, depth);
    lemma_items_split(items, k, 0);
    lemma_items_size(items.take(k), depth);
    let rest = items.skip(k);
    assert(rest[0] == items[k]);
    lemma_tape_holds_concat(
        nodes,
        at,
        item_nodes(items.take(k), depth),
        item_nodes(rest, depth),
    );
    lemma_tape_holds_concat(
        nodes,
        item_at(items, at, k),
        tree_nodes(items[k], depth),
        item_nodes(rest.drop_first(), depth),
    );
    lemma_items_split(items.take(k + 1), k, 0);
    assert(items.take(k + 1).take(k) =~= items.take(k));
    assert(items.take(k + 1).skip(k) =~= seq![items[k]]);
    assert(seq![items[k]].drop_first() =~= Seq::<Tree>::empty());
    assert(item_nodes(seq![items[k]], 0) =~= tree_nodes(items[k], 0)) by {
        assert(item_nodes(Seq::<Tree>::empty(), 0) =~= Seq::<Node>::empty());
    }
}

/// The elements of the array whose `Start` node is `arr_start`, as pairs of the indices of
/// their first and last nodes.
fn elements(
    nodes: &[Node],
    arr_start: usize,
    arr_end: usize,
    Ghost(items): Ghost<Seq<Tree>>,
    Ghost(depth): Ghost<int>,
) -> (list: Vec<(usize, usize)>)
    requires
        items_recordable(items),
        arr_end < nodes@.len(),
        arr_end == arr_start + 1 + items_size(items),
        tape_holds(nodes@, arr_start + 1, item_nodes(items, depth)),
    ensures
        list@.len() == items.len(),
        forall|k: int|
            0 <= k < items.len() ==> (#[trigger] list@[k]).0 == item_at(items, arr_start + 1, k)
                && list@[k].1 == list@[k].0 + size(items[k]) - 1,
{
    let ghost base = arr_start + 1;
    let ghost mut done: int = 0;
    let n: usize = nodes.len();
    let mut list: Vec<(usize, usize)> = Vec::new();
    let mut v: usize = arr_start + 1;
    proof {
        lemma_items_size(items, depth);
        assert(items.take(0) =~= Seq::empty());
        assert(item_nodes(Seq::<Tree>::empty(), 0) =~= Seq::<Node>::empty());
        assert(items.take(items.len() as int) =~= items);
    }
    while v < arr_end
        invariant
            items_recordable(items),
            base == arr_start + 1,
            arr_end < n,
            n == nodes@.len(),
            arr_end == arr_start + 1 + items_size(items),
            tape_holds(nodes@, base, item_nodes(items, depth)),
            0 <= done <= items.len(),
            v == item_at(items, base, done),
            list@.len() == done,
            items.take(items.len() as int) == items,
            forall|k: int|
                0 <= k < done ==> (#[trigger] list@[k]).0 == item_at(items, base, k)
                    && list@[k].1 == list@[k].0 + size(items[k]) - 1,
        decreases arr_end - v,
    {
        proof {
            assert(done < items.len());
            lemma_item_held(nodes@, base, items, done, depth);
            lemma_items_recordable_at(items, done);
            lemma_size(items[done], depth);
        }
        let end: usize = value_end(nodes, v, Ghost(items[done]), Ghost(depth));
        list.push((v, end));
        v = end + 1;
        proof {
            done = done + 1;
        }
    }
    proof {
        if done < items.len() {
            lemma_item_held(nodes@, base, items, done, depth);
            lemma_size(items[done], 0);
            lemma_size(items[done], depth);
        }
    }
    list
}

proof fn lemma_items_recordable_at(items: Seq<Tree>, k: int)
    requires
        items_recordable(items),
        0 <= k < items.len(),
    ensures
        recordable(items[k]),
    decreases k,
{
    if k > 0 {
        lemma_items_recordable_at(items.drop_first(), k - 1);
    }
}

/// Where the `k`-th member of an object stands whose members start at node `at`.
pub open spec fn member_at(members: Seq<(Place, Tree)>, at: int, k: int) -> int {
    at + members_size(members.take(k))
}

/// The members before and from the `k`-th on.
proof fn lemma_members_split(members: Seq<(Place, Tree)>, k: int, depth: int)
    requires
        0 <= k <= members.len(),
    ensures
        member_nodes(members, depth) == member_nodes(members.take(k), depth) + member_nodes(
            members.skip(k),
            depth,
        ),
    decreases k,
{
    if k == 0 {
        assert(members.take(0) =~= Seq::empty());
        assert(members.skip(0) =~= members);
        assert(member_nodes(members.take(0), depth) =~= Seq::empty());
        assert(Seq::<Node>::empty() + member_nodes(members, depth) =~= member_nodes(
            members,
            depth,
        ));
    } else {
        let others = members.drop_first();
        lemma_members_split(others, k - 1, depth);
        assert(members.take(k).drop_first() =~= others.take(k - 1));
        assert(members.skip(k) =~= others.skip(k - 1));
        assert(members.take(k)[0] == members[0]);
        let key = seq![node(NodeKind::Key, members[0].0.start, members[0].0.end, depth)];
        let a = tree_nodes(members[0].1, depth);
        let b = member_nodes(others.take(k - 1), depth);
        let c = member_nodes(others.skip(k - 1), depth);
        assert(key + a + (b + c) =~= key + a + b + c);
    }
}

/// The `k`-th member stands on the tape where [`member_at`] says: its key, then its value.
proof fn lemma_member_held(
    nodes: Seq<Node>,
    at: int,
    members: Seq<(Place, Tree)>,
    k: int,
    depth: int,
)
    requires
        tape_holds(nodes, at, member_nodes(members, depth)),
        0 <= k < members.len(),
    ensures
        ({
            let m = member_at(members, at, k);
            &&& 0 <= m < nodes.len()
            &&& nodes[m] == node(NodeKind::Key, members[k].0.start, members[k].0.end, depth)
            &&& tape_holds(nodes, m + 1, tree_nodes(members[k].1, depth))
            &&& member_at(members, at, k + 1) == m + 1 + size(members[k].1)
            &&& member_at(members, at, k + 1) <= at + members_size(members)
        }),
{
    lemma_members_split(members, k + 1, 0);
    lemma_members_split(members, k, depth);
    lemma_members_split(members, k, 0);
    lemma_members_size(members.take(k), depth);
    let m = member_at(members, at, k);
    let rest = members.skip(k);
    assert(rest[0] == members[k]);
    let key = node(NodeKind::Key, members[k].0.start, members[k].0.end, depth);
    let value = tree_nodes(members[k].1, depth);
    lemma_tape_holds_concat(
        nodes,
        at,
        member_nodes(members.take(k), depth),
        member_nodes(rest, depth),
    );
    lemma_tape_holds_concat(
        nodes,
        m,
        seq![key] + value,
        member_nodes(rest.drop_first(), depth),
    );
    lemma_tape_holds_concat(nodes, m, seq![key], value);
    assert(nodes.subrange(m, m + 1)[0] == nodes[m]);
    lemma_members_split(members.take(k + 1), k, 0);
    assert(members.take(k + 1).take(k) =~= members.take(k));
    let one = seq![members[k]];
    assert(members.take(k + 1).skip(k) =~= one);
    assert(one.drop_first() =~= Seq::<(Place, Tree)>::empty());
    assert(member_nodes(one, 0).len() == 1 + size(members[k].1)) by {
        assert(member_nodes(Seq::<(Place, Tree)>::empty(), 0) =~= Seq::<Node>::empty());
    }
}

proof fn lemma_members_recordable_at(members: Seq<(Place, Tree)>, k: int)
    requires
        members_recordable(members),
        0 <= k < members.len(),
    ensures
        recordable_place(members[k].0),
        recordable(members[k].1),
    decreases k,
{
    if k > 0 {
        lemma_members_recordable_at(members.drop_first(), k - 1);
    }
}

/// The members of the object whose `Start` node is `obj_start`: the key's span, and the
/// indices of the value's first and last nodes.
fn object_members(
    nodes: &[Node],
    obj_start: usize,
    obj_end: usize,
    Ghost(members): Ghost<Seq<(Place, Tree)>>,
    Ghost(depth): Ghost<int>,
) -> (list: Vec<(Span, usize, usize)>)
    requires
        members_recordable(members),
        obj_end < nodes@.len(),
        obj_end == obj_start + 1 + members_size(members),
        tape_holds(nodes@, obj_start + 1, member_nodes(members, depth)),
    ensures
        list@.len() == members.len(),
        forall|k: int|
            0 <= k < members.len() ==> {
                &&& (#[trigger] list@[k]).0 == span_of(members[k].0)
                &&& list@[k].1 == member_at(members, obj_start + 1, k) + 1
                &&& list@[k].2 == list@[k].1 + size(members[k].1) - 1
            },
{
    let ghost base = obj_start + 1;
    let ghost mut done: int = 0;
    let n: usize = nodes.len();
    let mut list: Vec<(Span, usize, usize)> = Vec::new();
    let mut j: usize = obj_start + 1;
    proof {
        lemma_members_size(members, depth);
        assert(members.take(0) =~= Seq::empty());
        assert(member_nodes(Seq::<(Place, Tree)>::empty(), 0) =~= Seq::<Node>::empty());
        assert(members.take(members.len() as int) =~= members);
    }
    while j < obj_end
        invariant
            members_recordable(members),
            base == obj_start + 1,
            obj_end < n,
            n == nodes@.len(),
            obj_end == obj_start + 1 + members_size(members),
            tape_holds(nodes@, base, member_nodes(members, depth)),
            0 <= done <= members.len(),
            j == member_at(members, base, done),
            list@.len() == done,
            members.take(members.len() as int) == members,
            forall|k: int|
                0 <= k < done ==> {
                    &&& (#[trigger] list@[k]).0 == span_of(members[k].0)
                    &&& list@[k].1 == member_at(members, base, k) + 1
                    &&& list@[k].2 == list@[k].1 + size(members[k].1) - 1
                },
        decreases obj_end - j,
    {
        proof {
            assert(done < members.len());
            lemma_member_held(nodes@, base, members, done, depth);
            lemma_members_recordable_at(members, done);
            lemma_size(members[done].1, depth);
        }
        let value_start: usize = j + 1;
        let end: usize = value_end(nodes, value_start, Ghost(members[done].1), Ghost(depth));
        list.push((nodes[j].span, value_start, end));
        j = end + 1;
        proof {
            done = done + 1;
        }
    }
    proof {
        if done < members.len() {
            lemma_member_held(nodes@, base, members, done, depth);
            lemma_size(members[done].1, 0);
        }
    }
    list
}

// ---------------------------------------------------------------------------
// Table emission
// ---------------------------------------------------------------------------

/// Whether every span can be cut out of the text.
pub open spec fn spans_resolvable(spans: Seq<Span>, s: Seq<u8>) -> bool {
    forall|i: int| 0 <= i < spans.len() ==> span_text(s, #[trigger] spans[i]) is Some
}

/// The lexemes of spans.
pub open spec fn span_texts(spans: Seq<Span>, s: Seq<u8>) -> Seq<Seq<u8>> {
    Seq::new(spans.len(), |i: int| s.subrange(spans[i].start as int, spans[i].end as int))
}

proof fn lemma_items_resolvable(items: Seq<Tree>, s: Seq<u8>)
    ensures
        items_resolvable(items, s) <==> (forall|k: int|
            0 <= k < items.len() ==> resolvable(#[trigger] items[k], s)),
    decreases items.len(),
{
    if items.len() > 0 {
        let others = items.drop_first();
        lemma_items_resolvable(others, s);
        if items_resolvable(items, s) {
            assert forall|k: int| 0 <= k < items.len() implies resolvable(
                #[trigger] items[k],
                s,
            ) by {
                if k > 0 {
                    assert(items[k] == others[k - 1]);
                }
            }
        }
        if forall|k: int| 0 <= k < items.len() ==> resolvable(#[trigger] items[k], s) {
            assert forall|k: int| 0 <= k < others.len() implies resolvable(
                #[trigger] others[k],
                s,
            ) by {
                assert(others[k] == items[k + 1]);
            }
        }
    }
}

/// Whether the `k`-th member's key and value can be cut out of the text.
spec fn member_resolvable(members: Seq<(Place, Tree)>, k: int, s: Seq<u8>) -> bool {
    sliceable(s, members[k].0.start, members[k].0.end) && resolvable(members[k].1, s)
}

proof fn lemma_members_resolvable(members: Seq<(Place, Tree)>, s: Seq<u8>)
    ensures
        members_resolvable(members, s) <==> (forall|k: int|
            0 <= k < members.len() ==> #[trigger] member_resolvable(members, k, s)),
    decreases members.len(),
{
    if members.len() > 0 {
        let others = members.drop_first();
        lemma_members_resolvable(others, s);
        if members_resolvable(members, s) {
            assert forall|k: int| 0 <= k < members.len() implies #[trigger] member_resolvable(
                members,
                k,
                s,
            ) by {
                if k > 0 {
                    assert(member_resolvable(others, k - 1, s));
                }
            }
        }
        if forall|k: int| 0 <= k < members.len() ==> #[trigger] member_resolvable(members, k, s) {
            assert(member_resolvable(members, 0, s));
            assert forall|k: int| 0 <= k < others.len() implies #[trigger] member_resolvable(
                others,
                k,
                s,
            ) by {
                assert(member_resolvable(members, k + 1, s));
            }
        }
    }
}

/// Emit the value on the nodes `lo` to `hi`, both included, as minified JSON with verbatim
/// lexemes. Never starts a table. `None` if there is no node `hi` or a lexeme cannot be cut out
/// of `input`; what comes before has then been written.
pub fn emit_compact(nodes: &[Node], input: &str, out: &mut String, lo: usize, hi: usize) -> (r:
    Option<()>)
    ensures
        lo > hi ==> r is Some && final(out)@ == old(out)@,
        lo <= hi && hi >= nodes@.len() ==> r is None && encode_utf8(final(out)@) == encode_utf8(
            old(out)@,
        ) + (if lo < nodes@.len() {
            written_part(
                nodes@.skip(lo as int),
                encode_utf8(input@),
                Style::Verbatim,
                Seq::empty(),
            )
        } else {
            Seq::empty()
        }),
        lo <= hi < nodes@.len() ==> ({
            let part = nodes@.subrange(lo as int, hi + 1);
            let s = encode_utf8(input@);
            &&& r is Some == written(part, s, Style::Verbatim, Seq::empty()) is Some
            &&& encode_utf8(final(out)@) == encode_utf8(old(out)@) + written_part(
                part,
                s,
                Style::Verbatim,
                Seq::empty(),
            )
        }),
{
    if lo > hi {
        return Some(());
    }
    let n: usize = nodes.len();
    if hi >= n {
        if lo < n {
            let _ = write_nodes(slice_subrange(nodes, lo, n), input, out, Style::Verbatim);
            proof {
                assert(nodes@.subrange(lo as int, n as int) =~= nodes@.skip(lo as int));
            }
        } else {
            proof {
                assert(encode_utf8(out@) + Seq::<u8>::empty() =~= encode_utf8(out@));
            }
        }
        return None;
    }
    if write_nodes(slice_subrange(nodes, lo, hi + 1), input, out, Style::Verbatim) {
        Some(())
    } else {
        None
    }
}

/// Emit the value of a tree that stands on the nodes `lo` to `hi`.
fn emit_value(
    nodes: &[Node],
    input: &str,
    out: &mut String,
    lo: usize,
    hi: usize,
    Ghost(tree): Ghost<Tree>,
    Ghost(depth): Ghost<int>,
) -> (done: bool)
    requires
        recordable(tree),
        tape_holds(nodes@, lo as int, tree_nodes(tree, depth)),
        hi == lo + size(tree) - 1,
    ensures
        done == resolvable(tree, encode_utf8(input@)),
        done ==> encode_utf8(final(out)@) == encode_utf8(old(out)@) + minified(
            doc(tree, encode_utf8(input@)),
            Style::Verbatim,
        ),
{
    proof {
        lemma_size(tree, depth);
        lemma_written_whole(tree, depth, encode_utf8(input@), Style::Verbatim);
        lemma_written_part(
            tree_nodes(tree, depth),
            encode_utf8(input@),
            Style::Verbatim,
            Seq::empty(),
        );
    }
    emit_compact(nodes, input, out, lo, hi).is_some()
}

/// Whether the element's ordered keys are the header keys, lexeme for lexeme.
fn members_match_header(
    members: &Vec<(Span, usize, usize)>,
    header: &Vec<Span>,
    input: &str,
) -> (same: bool)
    ensures
        same == (members@.len() == header@.len() && forall|i: int|
            0 <= i < header@.len() ==> {
                &&& span_text(encode_utf8(input@), #[trigger] header@[i]) is Some
                &&& span_text(encode_utf8(input@), members@[i].0) == span_text(
                    encode_utf8(input@),
                    header@[i],
                )
            }),
{
    let ghost s = encode_utf8(input@);
    if members.len() != header.len() {
        return false;
    }
    let mut i: usize = 0;
    while i < header.len()
        invariant
            s == encode_utf8(input@),
            i <= header@.len(),
            members@.len() == header@.len(),
            forall|k: int|
                0 <= k < i ==> {
                    &&& span_text(s, #[trigger] header@[k]) is Some
                    &&& span_text(s, members@[k].0) == span_text(s, header@[k])
                },
        decreases header@.len() - i,
    {
        let (kspan, _, _) = members[i];
        let same = match (span_str(input, kspan), span_str(input, header[i])) {
            (Some(a), Some(b)) => same_bytes(a.as_bytes(), b.as_bytes()),
            _ => false,
        };
        if !same {
            proof {
                assert(span_text(s, header@[i as int]) is None || span_text(
                    s,
                    members@[i as int].0,
                ) != span_text(s, header@[i as int]));
            }
            return false;
        }
        i = i + 1;
    }
    true
}

/// Emit one element as a plain or deviating row.
fn emit_row(
    nodes: &[Node],
    input: &str,
    out: &mut String,
    elem_start: usize,
    elem_end: usize,
    header: &Vec<Span>,
    Ghost(members): Ghost<Seq<(Place, Tree)>>,
    Ghost(depth): Ghost<int>,
) -> (done: bool)
    requires
        members_recordable(members),
        spans_resolvable(header@, encode_utf8(input@)),
        elem_end < nodes@.len(),
        elem_end == elem_start + 1 + members_size(members),
        tape_holds(nodes@, elem_start + 1, member_nodes(members, depth)),
    ensures
        done == members_resolvable(members, encode_utf8(input@)),
        done ==> encode_utf8(final(out)@) == encode_utf8(old(out)@) + row(
            member_docs(members, encode_utf8(input@)),
            span_texts(header@, encode_utf8(input@)),
        ),
{
    let ghost s = encode_utf8(input@);
    let ghost docs = member_docs(members, s);
    let ghost keys = span_texts(header@, s);
    let ghost out0 = encode_utf8(out@);
    let ghost base = elem_start + 1;
    let list = object_members(nodes, elem_start, elem_end, Ghost(members), Ghost(depth));
    let plain = members_match_header(&list, header, input);
    proof {
        lemma_member_docs(members, s);
        lemma_members_resolvable(members, s);
        assert forall|k: int| 0 <= k < members.len() implies span_text(s, (#[trigger] list@[k]).0)
            == (if sliceable(s, members[k].0.start, members[k].0.end) {
            Some(lexeme(s, members[k].0))
        } else {
            None
        }) by {
            lemma_members_recordable_at(members, k);
        }
        if plain {
            assert(keys_of(docs) =~= keys) by {
                assert forall|k: int| 0 <= k < keys.len() implies keys_of(docs)[k] == keys[k] by {
                    assert(span_text(s, header@[k]) is Some);
                    assert(span_text(s, list@[k].0) == span_text(s, header@[k]));
                }
            }
        }
        assert(docs.skip(0) =~= docs);
    }
    let mut k: usize = 0;
    if plain {
        push_ascii(out, PLUS);
        let ghost text = out0 + (seq![PLUS] + value_fields(docs));
        proof {
            assert(encode_utf8(out@) + value_fields(docs.skip(0)) =~= text);
        }
        while k < list.len()
            invariant
                s == encode_utf8(input@),
                docs == member_docs(members, s),
                docs.len() == members.len(),
                base == elem_start + 1,
                members_recordable(members),
                tape_holds(nodes@, base, member_nodes(members, depth)),
                list@.len() == members.len(),
                k <= list@.len(),
                members_resolvable(members, s) <==> (forall|i: int|
                    0 <= i < members.len() ==> #[trigger] member_resolvable(members, i, s)),
                forall|i: int|
                    0 <= i < members.len() ==> #[trigger] docs[i] == (
                        lexeme(s, members[i].0),
                        doc(members[i].1, s),
                    ),
                forall|i: int|
                    0 <= i < members.len() ==> {
                        &&& (#[trigger] list@[i]).1 == member_at(members, base, i) + 1
                        &&& list@[i].2 == list@[i].1 + size(members[i].1) - 1
                    },
                encode_utf8(out@) + value_fields(docs.skip(k as int)) == text,
                forall|i: int| 0 <= i < k ==> resolvable(#[trigger] members[i].1, s),
            decreases list@.len() - k,
        {
            let ghost out1 = encode_utf8(out@);
            let ghost rest = docs.skip(k as int);
            let (_, lo, hi) = list[k];
            push_ascii(out, TAB);
            proof {
                lemma_member_held(nodes@, base, members, k as int, depth);
                lemma_members_recordable_at(members, k as int);
            }
            if !emit_value(nodes, input, out, lo, hi, Ghost(members[k as int].1), Ghost(depth)) {
                proof {
                    assert(!member_resolvable(members, k as int, s));
                }
                return false;
            }
            proof {
                assert(rest[0] == docs[k as int]);
                assert(rest.drop_first() =~= docs.skip(k + 1));
                assert(encode_utf8(out@) + value_fields(docs.skip(k + 1)) =~= out1 + value_fields(
                    rest,
                ));
            }
            k = k + 1;
        }
        proof {
            assert(docs.skip(k as int) =~= Seq::empty());
            assert(encode_utf8(out@) =~= text);
            assert forall|i: int| 0 <= i < members.len() implies #[trigger] member_resolvable(
                members,
                i,
                s,
            ) by {
                assert(span_text(s, header@[i]) is Some);
                assert(span_text(s, list@[i].0) is Some);
                assert(resolvable(members[i].1, s));
            }
        }
    } else {
        push_ascii(out, STAR);
        push_ascii(out, TAB);
        push_usize(out, list.len());
        let ghost text = out0 + (seq![STAR, TAB] + decimal(docs.len()) + pair_fields(docs));
        proof {
            assert(encode_utf8(out@) + pair_fields(docs.skip(0)) =~= text);
        }
        while k < list.len()
            invariant
                s == encode_utf8(input@),
                docs == member_docs(members, s),
                docs.len() == members.len(),
                base == elem_start + 1,
                members_recordable(members),
                tape_holds(nodes@, base, member_nodes(members, depth)),
                list@.len() == members.len(),
                k <= list@.len(),
                members_resolvable(members, s) <==> (forall|i: int|
                    0 <= i < members.len() ==> #[trigger] member_resolvable(members, i, s)),
                forall|i: int|
                    0 <= i < members.len() ==> #[trigger] docs[i] == (
                        lexeme(s, members[i].0),
                        doc(members[i].1, s),
                    ),
                forall|i: int|
                    0 <= i < members.len() ==> {
                        &&& span_text(s, (#[trigger] list@[i]).0) == (if sliceable(
                            s,
                            members[i].0.start,
                            members[i].0.end,
                        ) {
                            Some(lexeme(s, members[i].0))
                        } else {
                            None
                        })
                        &&& list@[i].1 == member_at(members, base, i) + 1
                        &&& list@[i].2 == list@[i].1 + size(members[i].1) - 1
                    },
                encode_utf8(out@) + pair_fields(docs.skip(k as int)) == text,
                forall|i: int| 0 <= i < k ==> #[trigger] member_resolvable(members, i, s),
            decreases list@.len() - k,
        {
            let ghost out1 = encode_utf8(out@);
            let ghost rest = docs.skip(k as int);
            let (key, lo, hi) = list[k];
            push_ascii(out, TAB);
            match span_str(input, key) {
                None => {
                    proof {
                        assert(!member_resolvable(members, k as int, s));
                    }
                    return false;
                },
                Some(l) => push_str(out, l),
            }
            push_ascii(out, TAB);
            proof {
                lemma_member_held(nodes@, base, members, k as int, depth);
                lemma_members_recordable_at(members, k as int);
            }
            if !emit_value(nodes, input, out, lo, hi, Ghost(members[k as int].1), Ghost(depth)) {
                proof {
                    assert(!member_resolvable(members, k as int, s));
                }
                return false;
            }
            proof {
                assert(rest[0] == docs[k as int]);
                assert(rest.drop_first() =~= docs.skip(k + 1));
                assert(encode_utf8(out@) + pair_fields(docs.skip(k + 1)) =~= out1 + pair_fields(
                    rest,
                ));
                assert(member_resolvable(members, k as int, s));
            }
            k = k + 1;
        }
        proof {
            assert(docs.skip(k as int) =~= Seq::empty());
            assert(encode_utf8(out@) =~= text);
            if keys_of(docs) == keys {
                assert(keys_of(docs).len() == keys.len());
                assert forall|i: int| 0 <= i < header@.len() implies {
                    &&& span_text(s, #[trigger] header@[i]) is Some
                    &&& span_text(s, list@[i].0) == span_text(s, header@[i])
                } by {
                    assert(keys_of(docs)[i] == keys[i]);
                    assert(member_resolvable(members, i, s));
                    assert(docs[i].0 == lexeme(s, members[i].0));
                }
            }
        }
    }
    push_ascii(out, LF);
    proof {
        assert(encode_utf8(out@) =~= out0 + row(docs, keys));
    }
    true
}

/// The members of an object tree.
pub open spec fn tree_members(tree: Tree) -> Seq<(Place, Tree)> {
    match tree {
        Tree::Object { open, members, close } => members,
        _ => Seq::empty(),
    }
}

/// Emit the table block for the array whose `Start` node is `arr_start`.
fn emit_table(
    nodes: &[Node],
    input: &str,
    out: &mut String,
    arr_start: usize,
    plan: &TablePlan,
    Ghost(items): Ghost<Seq<Tree>>,
    Ghost(depth): Ghost<int>,
) -> (done: bool)
    requires
        items_recordable(items),
        forall|k: int| 0 <= k < items.len() ==> (#[trigger] items[k]) is Object,
        plan.end_index < nodes@.len(),
        plan.end_index == arr_start + 1 + items_size(items),
        tape_holds(nodes@, arr_start + 1, item_nodes(items, depth)),
    ensures
        done == (spans_resolvable(plan.header_keys@, encode_utf8(input@)) && items_resolvable(
            items,
            encode_utf8(input@),
        )),
        done ==> encode_utf8(final(out)@) == encode_utf8(old(out)@) + table(
            item_docs(items, encode_utf8(input@)),
            span_texts(plan.header_keys@, encode_utf8(input@)),
        ),
{
    let ghost s = encode_utf8(input@);
    let ghost docs = item_docs(items, s);
    let ghost spans = plan.header_keys@;
    let ghost keys = span_texts(spans, s);
    let ghost out0 = encode_utf8(out@);
    let ghost base = arr_start + 1;
    let elems = elements(nodes, arr_start, plan.end_index, Ghost(items), Ghost(depth));
    proof {
        lemma_item_docs(items, s);
        lemma_items_resolvable(items, s);
        assert(keys.skip(0) =~= keys);
        assert(docs.skip(0) =~= docs);
    }
    push_ascii(out, LF);
    push_ascii(out, HASH);
    push_usize(out, elems.len());
    let ghost head = out0 + (seq![LF, HASH] + decimal(docs.len()) + key_fields(keys));
    proof {
        assert(encode_utf8(out@) + key_fields(keys.skip(0)) =~= head);
    }
    let mut h: usize = 0;
    while h < plan.header_keys.len()
        invariant
            s == encode_utf8(input@),
            spans == plan.header_keys@,
            keys == span_texts(spans, s),
            h <= spans.len(),
            encode_utf8(out@) + key_fields(keys.skip(h as int)) == head,
            forall|i: int| 0 <= i < h ==> span_text(s, #[trigger] spans[i]) is Some,
        decreases spans.len() - h,
    {
        let ghost out1 = encode_utf8(out@);
        let ghost rest = keys.skip(h as int);
        push_ascii(out, TAB);
        match span_str(input, plan.header_keys[h]) {
            None => {
                proof {
                    assert(span_text(s, spans[h as int]) is None);
                }
                return false;
            },
            Some(l) => {
                push_str(out, l);
                proof {
                    assert(rest[0] == keys[h as int]);
                    assert(rest.drop_first() =~= keys.skip(h + 1));
                    assert(encode_utf8(out@) + key_fields(keys.skip(h + 1)) =~= out1 + key_fields(
                        rest,
                    ));
                }
            },
        }
        h = h + 1;
    }
    push_ascii(out, LF);
    let ghost text = out0 + table(docs, keys);
    proof {
        assert(keys.skip(h as int) =~= Seq::empty());
        assert(encode_utf8(out@) + rows(docs.skip(0), keys) =~= text);
    }
    let mut k: usize = 0;
    while k < elems.len()
        invariant
            s == encode_utf8(input@),
            docs == item_docs(items, s),
            docs.len() == items.len(),
            spans == plan.header_keys@,
            keys == span_texts(spans, s),
            spans_resolvable(spans, s),
            base == arr_start + 1,
            items_recordable(items),
            forall|i: int| 0 <= i < items.len() ==> (#[trigger] items[i]) is Object,
            plan.end_index < nodes@.len(),
            plan.end_index == base + items_size(items),
            tape_holds(nodes@, base, item_nodes(items, depth)),
            elems@.len() == items.len(),
            k <= elems@.len(),
            items_resolvable(items, s) <==> (forall|i: int|
                0 <= i < items.len() ==> resolvable(#[trigger] items[i], s)),
            forall|i: int| 0 <= i < items.len() ==> #[trigger] docs[i] == doc(items[i], s),
            forall|i: int|
                0 <= i < items.len() ==> (#[trigger] elems@[i]).0 == item_at(items, base, i)
                    && elems@[i].1 == elems@[i].0 + size(items[i]) - 1,
            encode_utf8(out@) + rows(docs.skip(k as int), keys) == text,
            forall|i: int| 0 <= i < k ==> resolvable(#[trigger] items[i], s),
        decreases elems@.len() - k,
    {
        let ghost out1 = encode_utf8(out@);
        let ghost rest = docs.skip(k as int);
        let (elem_start, elem_end) = elems[k];
        let ghost item = items[k as int];
        let ghost members = tree_members(item);
        proof {
            assert(item is Object);
            lemma_item_held(nodes@, base, items, k as int, depth);
            lemma_items_recordable_at(items, k as int);
            lemma_size(item, depth);
            lemma_members_size(members, depth + 1);
            let start = node(
                NodeKind::ObjectStart { members: members.len() as u32 },
                item->Object_open,
                item->Object_open + 1,
                depth,
            );
            let end = node(
                NodeKind::ObjectEnd,
                item->Object_close,
                item->Object_close + 1,
                depth,
            );
            lemma_tape_holds_concat(
                nodes@,
                elem_start as int,
                seq![start] + member_nodes(members, depth + 1),
                seq![end],
            );
            lemma_tape_holds_concat(
                nodes@,
                elem_start as int,
                seq![start],
                member_nodes(members, depth + 1),
            );
            lemma_members_size(members, 1);
        }
        if !emit_row(
            nodes,
            input,
            out,
            elem_start,
            elem_end,
            &plan.header_keys,
            Ghost(members),
            Ghost(depth + 1),
        ) {
            proof {
                assert(!resolvable(items[k as int], s));
            }
            return false;
        }
        proof {
            assert(rest[0] == docs[k as int]);
            assert(rest.drop_first() =~= docs.skip(k + 1));
            assert(members_of(docs[k as int]) == member_docs(members, s));
            assert(encode_utf8(out@) + rows(docs.skip(k + 1), keys) =~= out1 + rows(rest, keys));
            assert(resolvable(items[k as int], s));
        }
        k = k + 1;
    }
    proof {
        assert(docs.skip(k as int) =~= Seq::empty());
        assert(encode_utf8(out@) =~= text);
    }
    true
}

// ---------------------------------------------------------------------------
// The arrays of a tree
// ---------------------------------------------------------------------------

/// The arrays of a tree whose first node stands at `at`, each with the number of containers
/// around it.
spec fn arrays(tree: Tree, at: int, depth: int) -> Map<int, (Tree, int)>
    decreases tree,
{
    match tree {
        Tree::Leaf { kind, place } => Map::empty(),
        Tree::Array { open, items, close } => arrays_in_items(items, at + 1, depth + 1).insert(
            at,
            (tree, depth),
        ),
        Tree::Object { open, members, close } => arrays_in_members(members, at + 1, depth + 1),
    }
}

spec fn arrays_in_items(items: Seq<Tree>, at: int, depth: int) -> Map<int, (Tree, int)>
    decreases items,
{
    if items.len() == 0 {
        Map::empty()
    } else {
        arrays(items[0], at, depth).union_prefer_right(
            arrays_in_items(items.drop_first(), at + size(items[0]), depth),
        )
    }
}

spec fn arrays_in_members(members: Seq<(Place, Tree)>, at: int, depth: int) -> Map<
    int,
    (Tree, int),
>
    decreases members,
{
    if members.len() == 0 {
        Map::empty()
    } else {
        arrays(members[0].1, at + 1, depth).union_prefer_right(
            arrays_in_members(members.drop_first(), at + 1 + size(members[0].1), depth),
        )
    }
}

/// The elements of an array tree.
pub open spec fn tree_items(tree: Tree) -> Seq<Tree> {
    match tree {
        Tree::Array { open, items, close } => items,
        _ => Seq::empty(),
    }
}

/// Whether `found` holds only arrays that stand on the tape inside the given nodes, and
/// `plans` the plans of those that have one.
spec fn surveyed(
    found: Map<int, (Tree, int)>,
    plans: Map<int, Plan>,
    nodes: Seq<Node>,
    s: Seq<u8>,
    from: int,
    to: int,
) -> bool {
    &&& forall|k: int| #[trigger]
        found.dom().contains(k) ==> {
            &&& from <= k < to
            &&& found[k].0 is Array
            &&& recordable(found[k].0)
            &&& tape_holds(nodes, k, tree_nodes(found[k].0, found[k].1))
        }
    &&& forall|k: int| #[trigger]
        plans.dom().contains(k) <==> found.dom().contains(k) && array_plan(
            tree_items(found[k].0),
            k,
            s,
        ) is Some
    &&& forall|k: int| #[trigger]
        plans.dom().contains(k) ==> array_plan(tree_items(found[k].0), k, s) == Some(plans[k])
}

#[verifier::spinoff_prover]
#[verifier::rlimit(40)]
proof fn lemma_surveyed(tree: Tree, at: int, depth: int, nodes: Seq<Node>, s: Seq<u8>)
    requires
        recordable(tree),
        tape_holds(nodes, at, tree_nodes(tree, depth)),
    ensures
        surveyed(
            arrays(tree, at, depth),
            planned(tree, at, s),
            nodes,
            s,
            at,
            at + size(tree),
        ),
    decreases tree,
{
    lemma_size(tree, depth);
    lemma_size(tree, 0);
    match tree {
        Tree::Leaf { kind, place } => {},
        Tree::Array { open, items, close } => {
            let start = node(
                NodeKind::ArrayStart { elements: items.len() as u32 },
                open,
                open + 1,
                depth,
            );
            let end = node(NodeKind::ArrayEnd, close, close + 1, depth);
            let inner = item_nodes(items, depth + 1);
            lemma_tape_holds_concat(nodes, at, seq![start] + inner, seq![end]);
            lemma_tape_holds_concat(nodes, at, seq![start], inner);
            lemma_items_size(items, depth + 1);
            lemma_surveyed_items(items, at + 1, depth + 1, nodes, s);
        },
        Tree::Object { open, members, close } => {
            let start = node(
                NodeKind::ObjectStart { members: members.len() as u32 },
                open,
                open + 1,
                depth,
            );
            let end = node(NodeKind::ObjectEnd, close, close + 1, depth);
            let inner = member_nodes(members, depth + 1);
            lemma_tape_holds_concat(nodes, at, seq![start] + inner, seq![end]);
            lemma_tape_holds_concat(nodes, at, seq![start], inner);
            lemma_members_size(members, depth + 1);
            lemma_surveyed_members(members, at + 1, depth + 1, nodes, s);
        },
    }
}

#[verifier::spinoff_prover]
#[verifier::rlimit(40)]
proof fn lemma_surveyed_items(items: Seq<Tree>, at: int, depth: int, nodes: Seq<Node>, s: Seq<u8>)
    requires
        items_recordable(items),
        tape_holds(nodes, at, item_nodes(items, depth)),
    ensures
        surveyed(
            arrays_in_items(items, at, depth),
            planned_items(items, at, s),
            nodes,
            s,
            at,
            at + items_size(items),
        ),
    decreases items,
{
    if items.len() > 0 {
        let first = tree_nodes(items[0], depth);
        let others = items.drop_first();
        lemma_tape_holds_concat(nodes, at, first, item_nodes(others, depth));
        lemma_size(items[0], depth);
        lemma_size(items[0], 0);
        lemma_surveyed(items[0], at, depth, nodes, s);
        lemma_surveyed_items(others, at + size(items[0]), depth, nodes, s);
        lemma_items_size(items, 0);
    }
}

#[verifier::spinoff_prover]
#[verifier::rlimit(40)]
proof fn lemma_surveyed_members(
    members: Seq<(Place, Tree)>,
    at: int,
    depth: int,
    nodes: Seq<Node>,
    s: Seq<u8>,
)
    requires
        members_recordable(members),
        tape_holds(nodes, at, member_nodes(members, depth)),
    ensures
        surveyed(
            arrays_in_members(members, at, depth),
            planned_members(members, at, s),
            nodes,
            s,
            at,
            at + members_size(members),
        ),
    decreases members,
{
    if members.len() > 0 {
        let key = seq![node(NodeKind::Key, members[0].0.start, members[0].0.end, depth)];
        let first = tree_nodes(members[0].1, depth);
        let others = members.drop_first();
        lemma_tape_holds_concat(nodes, at, key + first, member_nodes(others, depth));
        lemma_tape_holds_concat(nodes, at, key, first);
        lemma_size(members[0].1, depth);
        lemma_size(members[0].1, 0);
        lemma_surveyed(members[0].1, at + 1, depth, nodes, s);
        lemma_surveyed_members(others, at + 1 + size(members[0].1), depth, nodes, s);
    }
}

// ---------------------------------------------------------------------------
// Plans and headers
// ---------------------------------------------------------------------------

proof fn lemma_with_items(g: Gather, items: Seq<Tree>)
    ensures
        ({
            let full = with_items(g, items);
            &&& full.count == g.count + items.len()
            &&& full.is_array == g.is_array
            &&& full.all_objects == (g.all_objects && forall|k: int|
                0 <= k < items.len() ==> (#[trigger] items[k]) is Object)
            &&& (forall|k: int| 0 <= k < items.len() ==> (#[trigger] items[k]) is Object)
                ==> full.elems == g.elems + Seq::new(
                items.len(),
                |k: int| key_spans(tree_members(items[k])),
            )
        }),
    decreases items.len(),
{
    if items.len() == 0 {
        assert(g.elems + Seq::new(items.len(), |k: int| key_spans(tree_members(items[k])))
            =~= g.elems);
    } else {
        let g2 = with_element(g, object_keys(items[0]));
        let others = items.drop_first();
        lemma_with_items(g2, others);
        assert(forall|k: int| 0 <= k < others.len() ==> others[k] == items[k + 1]);
        if forall|k: int| 0 <= k < items.len() ==> (#[trigger] items[k]) is Object {
            assert(items[0] is Object);
            assert(g2.elems + Seq::new(others.len(), |k: int| key_spans(tree_members(others[k])))
                =~= g.elems + Seq::new(items.len(), |k: int| key_spans(tree_members(items[k]))));
        } else {
            let bad = choose|k: int| 0 <= k < items.len() && !((#[trigger] items[k]) is Object);
            if bad > 0 {
                assert(!(others[bad - 1] is Object));
            }
        }
    }
}

/// The keys of a resolvable object are fed alike by their spans and by their lexemes.
proof fn lemma_feed(spans: Seq<Span>, s: Seq<u8>)
    requires
        spans_resolvable(spans, s),
    ensures
        span_feed(spans, s) == key_feed(span_texts(spans, s)),
    decreases spans.len(),
{
    if spans.len() > 0 {
        let shorter = spans.drop_last();
        assert forall|i: int| 0 <= i < shorter.len() implies span_text(s, #[trigger] shorter[i]) is Some by {
            assert(shorter[i] == spans[i]);
        }
        lemma_feed(shorter, s);
        assert(span_texts(spans, s).drop_last() =~= span_texts(shorter, s));
        assert(span_text(s, spans[spans.len() - 1]) is Some);
    }
}

/// The spans of a resolvable object's keys have the keys of its document as lexemes.
proof fn lemma_key_spans(members: Seq<(Place, Tree)>, s: Seq<u8>)
    requires
        members_recordable(members),
        members_resolvable(members, s),
    ensures
        spans_resolvable(key_spans(members), s),
        span_texts(key_spans(members), s) == keys_of(member_docs(members, s)),
        span_digest(key_spans(members), s) == shape_digest(keys_of(member_docs(members, s))),
{
    let spans = key_spans(members);
    lemma_members_resolvable(members, s);
    lemma_member_docs(members, s);
    assert forall|i: int| 0 <= i < spans.len() implies span_text(s, #[trigger] spans[i]) is Some by {
        lemma_members_recordable_at(members, i);
        assert(member_resolvable(members, i, s));
    }
    assert(span_texts(spans, s) =~= keys_of(member_docs(members, s))) by {
        assert forall|i: int| 0 <= i < spans.len() implies span_texts(spans, s)[i] == keys_of(
            member_docs(members, s),
        )[i] by {
            lemma_members_recordable_at(members, i);
        }
    }
    lemma_feed(spans, s);
}

/// An array that can be cut out of the text has a plan exactly if its document has a header,
/// and then with the header's keys.
proof fn lemma_plan_header(items: Seq<Tree>, at: int, s: Seq<u8>)
    requires
        items_recordable(items),
        items_resolvable(items, s),
    ensures
        match array_plan(items, at, s) {
            Some(plan) => {
                &&& plan.end == at + 1 + items_size(items)
                &&& forall|k: int| 0 <= k < items.len() ==> (#[trigger] items[k]) is Object
                &&& spans_resolvable(plan.keys, s)
                &&& header(item_docs(items, s), machine_digest()) == Some(span_texts(plan.keys, s))
            },
            None => header(item_docs(items, s), machine_digest()) is None,
        },
{
    let docs = item_docs(items, s);
    let digest = machine_digest();
    lemma_item_docs(items, s);
    lemma_items_resolvable(items, s);
    let g = opened(true, at);
    lemma_with_items(g, items);
    let full = with_items(g, items);
    let all = forall|k: int| 0 <= k < items.len() ==> (#[trigger] items[k]) is Object;
    assert(all == all_objects(docs)) by {
        if all {
            assert forall|i: int| 0 <= i < docs.len() implies (#[trigger] docs[i]) is Object by {
                assert(items[i] is Object);
            }
        } else {
            let bad = choose|k: int| 0 <= k < items.len() && !((#[trigger] items[k]) is Object);
            assert(!(docs[bad] is Object));
        }
    }
    if all {
        assert(full.elems =~= Seq::new(
            items.len(),
            |k: int| key_spans(tree_members(items[k])),
        ));
        assert forall|k: int| 0 <= k < items.len() implies {
            let members = tree_members(#[trigger] items[k]);
            &&& members_recordable(members)
            &&& members_resolvable(members, s)
            &&& members_of(docs[k]) == member_docs(members, s)
        } by {
            lemma_items_recordable_at(items, k);
            assert(resolvable(items[k], s));
            assert(docs[k] == doc(items[k], s));
        }
        assert(span_codes(full.elems, s) =~= codes_of(docs, digest)) by {
            assert forall|k: int| 0 <= k < items.len() implies span_codes(full.elems, s)[k]
                == codes_of(docs, digest)[k] by {
                assert(items[k] is Object);
                lemma_key_spans(tree_members(items[k]), s);
            }
        }
        let codes = codes_of(docs, digest);
        if let Some(k) = hoisted(codes) {
            assert(is_leader(codes, k));
            assert(items[k] is Object);
            lemma_key_spans(tree_members(items[k]), s);
        }
    }
}

// ---------------------------------------------------------------------------
// Rendering
// ---------------------------------------------------------------------------

/// The table of an array with the given plan, if every lexeme can be cut out of the text.
spec fn planned_table(items: Seq<Tree>, plan: Plan, s: Seq<u8>) -> Option<Seq<u8>> {
    if spans_resolvable(plan.keys, s) && items_resolvable(items, s) {
        Some(table(item_docs(items, s), span_texts(plan.keys, s)))
    } else {
        None
    }
}

/// The plan that applies at node `at`.
spec fn plan_at(
    nodes: Seq<Node>,
    s: Seq<u8>,
    found: Map<int, (Tree, int)>,
    at: int,
) -> Option<Plan> {
    if nodes[at].kind is ArrayStart && found.dom().contains(at) {
        match array_plan(tree_items(found[at].0), at, s) {
            Some(plan) => if at <= plan.end < nodes.len() {
                Some(plan)
            } else {
                None
            },
            None => None,
        }
    } else {
        None
    }
}

/// What the nodes from `at` on write, each array with a plan as its table.
spec fn tabulated(
    nodes: Seq<Node>,
    s: Seq<u8>,
    found: Map<int, (Tree, int)>,
    at: int,
    frames: Seq<Open>,
) -> Option<Seq<u8>>
    decreases nodes.len() - at,
{
    if at >= nodes.len() {
        Some(Seq::empty())
    } else {
        match plan_at(nodes, s, found, at) {
            Some(plan) => match planned_table(tree_items(found[at].0), plan, s) {
                None => None,
                Some(text) => prefixed(
                    value_gap(frames) + text,
                    tabulated(nodes, s, found, plan.end + 1, value_opened(frames)),
                ),
            },
            None => match step(nodes[at], s, Style::Verbatim, frames) {
                None => None,
                Some((text, opened)) => prefixed(
                    text,
                    tabulated(nodes, s, found, at + 1, opened),
                ),
            },
        }
    }
}

/// Whether the nodes from `at` on write a table.
spec fn tabulates(nodes: Seq<Node>, s: Seq<u8>, found: Map<int, (Tree, int)>, at: int) -> bool
    decreases nodes.len() - at,
{
    at < nodes.len() && (plan_at(nodes, s, found, at) is Some || tabulates(
        nodes,
        s,
        found,
        at + 1,
    ))
}

/// Whether two maps agree on the indices from `from` up to `to`.
spec fn agree_between(
    a: Map<int, (Tree, int)>,
    b: Map<int, (Tree, int)>,
    from: int,
    to: int,
) -> bool {
    forall|k: int|
        from <= k < to ==> #[trigger] a.dom().contains(k) == b.dom().contains(k) && (
        a.dom().contains(k) ==> a[k] == b[k])
}

/// The nodes of a tree write the comma that is due and the document in tabular form.
#[verifier::spinoff_prover]
#[verifier::rlimit(60)]
proof fn lemma_tabulated_tree(
    nodes: Seq<Node>,
    s: Seq<u8>,
    found: Map<int, (Tree, int)>,
    tree: Tree,
    at: int,
    depth: int,
    frames: Seq<Open>,
)
    requires
        recordable(tree),
        tape_holds(nodes, at, tree_nodes(tree, depth)),
        agree_between(found, arrays(tree, at, depth), at, at + size(tree)),
    ensures
        tabulated(nodes, s, found, at, frames) == (if resolvable(tree, s) {
            prefixed(
                value_gap(frames) + tabular(doc(tree, s), machine_digest()),
                tabulated(nodes, s, found, at + size(tree), value_opened(frames)),
            )
        } else {
            None
        }),
        resolvable(tree, s) ==> tabulates(nodes, s, found, at) == (has_table(
            doc(tree, s),
            machine_digest(),
        ) || tabulates(nodes, s, found, at + size(tree))),
    decreases tree, 1int,
{
    lemma_size(tree, depth);
    let part = tree_nodes(tree, depth);
    assert(nodes[at] == part[0]) by {
        assert(nodes.subrange(at, at + part.len())[0] == nodes[at]);
    }
    match tree {
        Tree::Leaf { kind, place } => {},
        Tree::Array { open, items, close } => {
            lemma_tabulated_array(nodes, s, found, tree, at, depth, frames);
        },
        Tree::Object { open, members, close } => {
            let start = node(
                NodeKind::ObjectStart { members: members.len() as u32 },
                open,
                open + 1,
                depth,
            );
            let end = node(NodeKind::ObjectEnd, close, close + 1, depth);
            let inner = member_nodes(members, depth + 1);
            lemma_tape_holds_concat(nodes, at, seq![start] + inner, seq![end]);
            lemma_tape_holds_concat(nodes, at, seq![start], inner);
            lemma_members_size(members, depth + 1);
            let opened = value_opened(frames);
            lemma_tabulated_members(nodes, s, found, members, at + 1, depth + 1, opened, false);
            let last = at + 1 + members_size(members);
            assert(nodes[last] == end) by {
                assert(nodes.subrange(last, last + 1)[0] == nodes[last]);
            }
            let seen = opened.push(Open { is_array: false, seen: members.len() > 0 });
            assert(seen.drop_last() =~= opened);
            if members_resolvable(members, s) {
                let list = tabular_members(member_docs(members, s), machine_digest(), true);
                let rest = tabulated(nodes, s, found, last + 1, opened);
                lemma_prefixed(list, seq![RBRACE], rest);
                lemma_prefixed(value_gap(frames) + seq![LBRACE], list + seq![RBRACE], rest);
                assert(value_gap(frames) + seq![LBRACE] + (list + seq![RBRACE]) =~= value_gap(
                    frames,
                ) + (seq![LBRACE] + list + seq![RBRACE]));
            }
        },
    }
}

#[verifier::spinoff_prover]
#[verifier::rlimit(60)]
proof fn lemma_tabulated_array(
    nodes: Seq<Node>,
    s: Seq<u8>,
    found: Map<int, (Tree, int)>,
    tree: Tree,
    at: int,
    depth: int,
    frames: Seq<Open>,
)
    requires
        tree is Array,
        recordable(tree),
        tape_holds(nodes, at, tree_nodes(tree, depth)),
        agree_between(found, arrays(tree, at, depth), at, at + size(tree)),
    ensures
        tabulated(nodes, s, found, at, frames) == (if resolvable(tree, s) {
            prefixed(
                value_gap(frames) + tabular(doc(tree, s), machine_digest()),
                tabulated(nodes, s, found, at + size(tree), value_opened(frames)),
            )
        } else {
            None
        }),
        resolvable(tree, s) ==> tabulates(nodes, s, found, at) == (has_table(
            doc(tree, s),
            machine_digest(),
        ) || tabulates(nodes, s, found, at + size(tree))),
    decreases tree, 0int,
{
    let part = tree_nodes(tree, depth);
    let items = tree->items;
    let open = tree->Array_open;
    let close = tree->Array_close;
    lemma_size(tree, depth);
    lemma_size(tree, 0);
    assert(nodes[at] == part[0]) by {
        assert(nodes.subrange(at, at + part.len())[0] == nodes[at]);
    }
    let start = node(NodeKind::ArrayStart { elements: items.len() as u32 }, open, open + 1, depth);
    let end = node(NodeKind::ArrayEnd, close, close + 1, depth);
    let inner = item_nodes(items, depth + 1);
    lemma_tape_holds_concat(nodes, at, seq![start] + inner, seq![end]);
    lemma_tape_holds_concat(nodes, at, seq![start], inner);
    lemma_items_size(items, depth + 1);
    lemma_items_size(items, 1);
    lemma_surveyed_items(items, at + 1, depth + 1, nodes, s);
    assert(arrays(tree, at, depth).dom().contains(at));
    assert(found.dom().contains(at) && found[at] == (tree, depth));
    let last = at + 1 + items_size(items);
    if items_resolvable(items, s) {
        lemma_plan_header(items, at, s);
    }
    match array_plan(items, at, s) {
        Some(plan) => {
            assert(plan.end == last);
            assert(plan_at(nodes, s, found, at) == Some(plan));
        },
        None => {
            assert(agree_between(
                found,
                arrays_in_items(items, at + 1, depth + 1),
                at + 1,
                at + 1 + items_size(items),
            )) by {
                let inner = arrays_in_items(items, at + 1, depth + 1);
                assert forall|k: int| at + 1 <= k < at + 1 + items_size(items) implies
                    #[trigger] found.dom().contains(k) == inner.dom().contains(k)
                    && (found.dom().contains(k) ==> found[k] == inner[k]) by {
                    assert(found.dom().contains(k) == arrays(tree, at, depth).dom().contains(k));
                }
            }
            let opened = value_opened(frames);
            lemma_tabulated_items(nodes, s, found, items, at + 1, depth + 1, opened, false);
            assert(nodes[last] == end) by {
                assert(nodes.subrange(last, last + 1)[0] == nodes[last]);
            }
            let seen = opened.push(Open { is_array: true, seen: items.len() > 0 });
            assert(seen.drop_last() =~= opened);
            if items_resolvable(items, s) {
                let list = tabular_items(item_docs(items, s), machine_digest(), true);
                let rest = tabulated(nodes, s, found, last + 1, opened);
                lemma_prefixed(list, seq![RBRACKET], rest);
                lemma_prefixed(value_gap(frames) + seq![LBRACKET], list + seq![RBRACKET], rest);
                assert(value_gap(frames) + seq![LBRACKET] + (list + seq![RBRACKET]) =~= value_gap(
                    frames,
                ) + (seq![LBRACKET] + list + seq![RBRACKET]));
            }
        },
    }
}

#[verifier::spinoff_prover]
#[verifier::rlimit(60)]
proof fn lemma_tabulated_items(
    nodes: Seq<Node>,
    s: Seq<u8>,
    found: Map<int, (Tree, int)>,
    items: Seq<Tree>,
    at: int,
    depth: int,
    outer: Seq<Open>,
    seen: bool,
)
    requires
        items_recordable(items),
        tape_holds(nodes, at, item_nodes(items, depth)),
        agree_between(found, arrays_in_items(items, at, depth), at, at + items_size(items)),
    ensures
        tabulated(nodes, s, found, at, outer.push(Open { is_array: true, seen })) == (
        if items_resolvable(items, s) {
            prefixed(
                tabular_items(item_docs(items, s), machine_digest(), !seen),
                tabulated(
                    nodes,
                    s,
                    found,
                    at + items_size(items),
                    outer.push(Open { is_array: true, seen: seen || items.len() > 0 }),
                ),
            )
        } else {
            None
        }),
        items_resolvable(items, s) ==> tabulates(nodes, s, found, at) == (items_have_table(
            item_docs(items, s),
            machine_digest(),
        ) || tabulates(nodes, s, found, at + items_size(items))),
    decreases items, 1int,
{
    let frames = outer.push(Open { is_array: true, seen });
    if items.len() == 0 {
        if let Some(t) = tabulated(nodes, s, found, at, frames) {
            assert(Seq::<u8>::empty() + t =~= t);
        }
    } else {
        let first = items[0];
        let others = items.drop_first();
        let next = at + size(first);
        lemma_tape_holds_concat(
            nodes,
            at,
            tree_nodes(first, depth),
            item_nodes(others, depth),
        );
        lemma_size(first, depth);
        lemma_size(first, 0);
        lemma_surveyed(first, at, depth, nodes, s);
        lemma_surveyed_items(others, next, depth, nodes, s);
        let whole = arrays_in_items(items, at, depth);
        let a = arrays(first, at, depth);
        let b = arrays_in_items(others, next, depth);
        assert(at + items_size(items) == next + items_size(others));
        assert(agree_between(found, a, at, next)) by {
            assert forall|k: int| at <= k < next implies #[trigger] found.dom().contains(k)
                == a.dom().contains(k) && (found.dom().contains(k) ==> found[k] == a[k]) by {
                assert(found.dom().contains(k) == whole.dom().contains(k));
                assert(!b.dom().contains(k));
            }
        }
        assert(agree_between(found, b, next, next + items_size(others))) by {
            assert forall|k: int| next <= k < next + items_size(others) implies
                #[trigger] found.dom().contains(k) == b.dom().contains(k) && (
            found.dom().contains(k) ==> found[k] == b[k]) by {
                assert(found.dom().contains(k) == whole.dom().contains(k));
                assert(!a.dom().contains(k));
            }
        }
        lemma_tabulated_tree(nodes, s, found, first, at, depth, frames);
        let opened = outer.push(Open { is_array: true, seen: true });
        assert(value_opened(frames) =~= opened);
        lemma_tabulated_items(nodes, s, found, others, next, depth, outer, true);
        if items_resolvable(items, s) {
            let docs = item_docs(items, s);
            assert(docs.drop_first() =~= item_docs(others, s));
            lemma_prefixed(
                value_gap(frames) + tabular(doc(first, s), machine_digest()),
                tabular_items(item_docs(others, s), machine_digest(), false),
                tabulated(nodes, s, found, at + items_size(items), opened),
            );
        }
    }
}

#[verifier::spinoff_prover]
#[verifier::rlimit(60)]
proof fn lemma_tabulated_members(
    nodes: Seq<Node>,
    s: Seq<u8>,
    found: Map<int, (Tree, int)>,
    members: Seq<(Place, Tree)>,
    at: int,
    depth: int,
    outer: Seq<Open>,
    seen: bool,
)
    requires
        members_recordable(members),
        tape_holds(nodes, at, member_nodes(members, depth)),
        agree_between(found, arrays_in_members(members, at, depth), at, at + members_size(members)),
    ensures
        tabulated(nodes, s, found, at, outer.push(Open { is_array: false, seen })) == (
        if members_resolvable(members, s) {
            prefixed(
                tabular_members(member_docs(members, s), machine_digest(), !seen),
                tabulated(
                    nodes,
                    s,
                    found,
                    at + members_size(members),
                    outer.push(Open { is_array: false, seen: seen || members.len() > 0 }),
                ),
            )
        } else {
            None
        }),
        members_resolvable(members, s) ==> tabulates(nodes, s, found, at) == (members_have_table(
            member_docs(members, s),
            machine_digest(),
        ) || tabulates(nodes, s, found, at + members_size(members))),
    decreases members, 1int,
{
    let frames = outer.push(Open { is_array: false, seen });
    if members.len() == 0 {
        if let Some(t) = tabulated(nodes, s, found, at, frames) {
            assert(Seq::<u8>::empty() + t =~= t);
        }
    } else {
        let (place, first) = members[0];
        let others = members.drop_first();
        let key_node = node(NodeKind::Key, place.start, place.end, depth);
        let next = at + 1 + size(first);
        lemma_tape_holds_concat(
            nodes,
            at,
            seq![key_node] + tree_nodes(first, depth),
            member_nodes(others, depth),
        );
        lemma_tape_holds_concat(nodes, at, seq![key_node], tree_nodes(first, depth));
        assert(nodes[at] == key_node) by {
            assert(nodes.subrange(at, at + 1)[0] == nodes[at]);
        }
        lemma_size(first, depth);
        lemma_size(first, 0);
        lemma_surveyed(first, at + 1, depth, nodes, s);
        lemma_surveyed_members(others, next, depth, nodes, s);
        let whole = arrays_in_members(members, at, depth);
        let a = arrays(first, at + 1, depth);
        let b = arrays_in_members(others, next, depth);
        assert(at + members_size(members) == next + members_size(others));
        assert(agree_between(found, a, at + 1, next)) by {
            assert forall|k: int| at + 1 <= k < next implies #[trigger] found.dom().contains(k)
                == a.dom().contains(k) && (found.dom().contains(k) ==> found[k] == a[k]) by {
                assert(found.dom().contains(k) == whole.dom().contains(k));
                assert(!b.dom().contains(k));
            }
        }
        assert(agree_between(found, b, next, next + members_size(others))) by {
            assert forall|k: int| next <= k < next + members_size(others) implies
                #[trigger] found.dom().contains(k) == b.dom().contains(k) && (
            found.dom().contains(k) ==> found[k] == b[k]) by {
                assert(found.dom().contains(k) == whole.dom().contains(k));
                assert(!a.dom().contains(k));
            }
        }
        let opened = outer.push(Open { is_array: false, seen: true });
        assert(key_opened(frames) =~= opened);
        lemma_tabulated_tree(nodes, s, found, first, at + 1, depth, opened);
        lemma_tabulated_members(nodes, s, found, others, next, depth, outer, true);
        if members_resolvable(members, s) {
            let docs = member_docs(members, s);
            assert(docs.drop_first() =~= member_docs(others, s));
            let key = key_gap(frames) + lexeme(s, place) + seq![COLON];
            let value = value_gap(opened) + tabular(doc(first, s), machine_digest());
            assert(value =~= tabular(doc(first, s), machine_digest()));
            let more = tabular_members(member_docs(others, s), machine_digest(), false);
            let rest = tabulated(nodes, s, found, at + members_size(members), opened);
            lemma_prefixed(value, more, rest);
            lemma_prefixed(key, value + more, rest);
            assert(key + (value + more) =~= gap(!seen) + lexeme(s, place) + seq![COLON] + tabular(
                doc(first, s),
                machine_digest(),
            ) + more);
        }
    }
}

// ---------------------------------------------------------------------------
// One tape, one document
// ---------------------------------------------------------------------------

/// No value and no member starts with an `End` node.
proof fn lemma_first_node(tree: Tree, depth: int)
    requires
        recordable(tree),
    ensures
        tree_nodes(tree, depth).len() > 0,
        !(tree_nodes(tree, depth)[0].kind is ObjectEnd),
        !(tree_nodes(tree, depth)[0].kind is ArrayEnd),
        !(tree_nodes(tree, depth)[0].kind is Key),
        tree_nodes(tree, depth)[0].kind is ArrayStart == (tree is Array),
        tree_nodes(tree, depth)[0].kind is ObjectStart == (tree is Object),
{
}

/// Trees with the same nodes describe the same document in every text.
#[verifier::spinoff_prover]
#[verifier::rlimit(60)]
pub proof fn lemma_same_nodes(
    a: Tree,
    b: Tree,
    depth: int,
    after_a: Seq<Node>,
    after_b: Seq<Node>,
    s: Seq<u8>,
)
    requires
        recordable(a),
        recordable(b),
        tree_nodes(a, depth) + after_a == tree_nodes(b, depth) + after_b,
    ensures
        doc(a, s) == doc(b, s),
        resolvable(a, s) == resolvable(b, s),
        after_a == after_b,
    decreases a,
{
    let all_a = tree_nodes(a, depth) + after_a;
    let all_b = tree_nodes(b, depth) + after_b;
    lemma_first_node(a, depth);
    lemma_first_node(b, depth);
    assert(all_a[0] == tree_nodes(a, depth)[0]);
    assert(all_b[0] == tree_nodes(b, depth)[0]);
    match a {
        Tree::Leaf { kind, place } => {
            assert(all_a.drop_first() =~= after_a);
            assert(all_b.drop_first() =~= after_b);
        },
        Tree::Array { open, items, close } => {
            let other = tree_items(b);
            let rest_a = seq![node(NodeKind::ArrayEnd, close, close + 1, depth)] + after_a;
            let rest_b = seq![node(NodeKind::ArrayEnd, b->Array_close, b->Array_close + 1, depth)]
                + after_b;
            assert(all_a.drop_first() =~= item_nodes(items, depth + 1) + rest_a);
            assert(all_b.drop_first() =~= item_nodes(other, depth + 1) + rest_b);
            lemma_same_items(items, other, depth + 1, rest_a, rest_b, s);
            assert(rest_a.drop_first() =~= after_a);
            assert(rest_b.drop_first() =~= after_b);
        },
        Tree::Object { open, members, close } => {
            let other = tree_members(b);
            let rest_a = seq![node(NodeKind::ObjectEnd, close, close + 1, depth)] + after_a;
            let rest_b = seq![
                node(NodeKind::ObjectEnd, b->Object_close, b->Object_close + 1, depth),
            ] + after_b;
            assert(all_a.drop_first() =~= member_nodes(members, depth + 1) + rest_a);
            assert(all_b.drop_first() =~= member_nodes(other, depth + 1) + rest_b);
            lemma_same_members(members, other, depth + 1, rest_a, rest_b, s);
            assert(rest_a.drop_first() =~= after_a);
            assert(rest_b.drop_first() =~= after_b);
        },
    }
}

#[verifier::spinoff_prover]
#[verifier::rlimit(60)]
proof fn lemma_same_items(
    a: Seq<Tree>,
    b: Seq<Tree>,
    depth: int,
    after_a: Seq<Node>,
    after_b: Seq<Node>,
    s: Seq<u8>,
)
    requires
        items_recordable(a),
        items_recordable(b),
        after_a.len() > 0,
        after_b.len() > 0,
        after_a[0].kind is ArrayEnd,
        after_b[0].kind is ArrayEnd,
        item_nodes(a, depth) + after_a == item_nodes(b, depth) + after_b,
    ensures
        item_docs(a, s) == item_docs(b, s),
        items_resolvable(a, s) == items_resolvable(b, s),
        after_a == after_b,
    decreases a,
{
    let all_a = item_nodes(a, depth) + after_a;
    let all_b = item_nodes(b, depth) + after_b;
    if a.len() > 0 {
        lemma_first_node(a[0], depth);
        assert(all_a[0] == tree_nodes(a[0], depth)[0]);
    } else {
        assert(all_a =~= after_a);
    }
    if b.len() > 0 {
        lemma_first_node(b[0], depth);
        assert(all_b[0] == tree_nodes(b[0], depth)[0]);
    } else {
        assert(all_b =~= after_b);
    }
    if a.len() > 0 && b.len() > 0 {
        let rest_a = item_nodes(a.drop_first(), depth) + after_a;
        let rest_b = item_nodes(b.drop_first(), depth) + after_b;
        assert(all_a =~= tree_nodes(a[0], depth) + rest_a);
        assert(all_b =~= tree_nodes(b[0], depth) + rest_b);
        lemma_same_nodes(a[0], b[0], depth, rest_a, rest_b, s);
        lemma_same_items(a.drop_first(), b.drop_first(), depth, after_a, after_b, s);
    }
}

#[verifier::spinoff_prover]
#[verifier::rlimit(60)]
proof fn lemma_same_members(
    a: Seq<(Place, Tree)>,
    b: Seq<(Place, Tree)>,
    depth: int,
    after_a: Seq<Node>,
    after_b: Seq<Node>,
    s: Seq<u8>,
)
    requires
        members_recordable(a),
        members_recordable(b),
        after_a.len() > 0,
        after_b.len() > 0,
        after_a[0].kind is ObjectEnd,
        after_b[0].kind is ObjectEnd,
        member_nodes(a, depth) + after_a == member_nodes(b, depth) + after_b,
    ensures
        member_docs(a, s) == member_docs(b, s),
        members_resolvable(a, s) == members_resolvable(b, s),
        after_a == after_b,
    decreases a,
{
    let all_a = member_nodes(a, depth) + after_a;
    let all_b = member_nodes(b, depth) + after_b;
    if a.len() > 0 {
        assert(all_a[0] == node(NodeKind::Key, a[0].0.start, a[0].0.end, depth));
    } else {
        assert(all_a =~= after_a);
    }
    if b.len() > 0 {
        assert(all_b[0] == node(NodeKind::Key, b[0].0.start, b[0].0.end, depth));
    } else {
        assert(all_b =~= after_b);
    }
    if a.len() > 0 && b.len() > 0 {
        let rest_a = member_nodes(a.drop_first(), depth) + after_a;
        let rest_b = member_nodes(b.drop_first(), depth) + after_b;
        assert(all_a.drop_first() =~= tree_nodes(a[0].1, depth) + rest_a);
        assert(all_b.drop_first() =~= tree_nodes(b[0].1, depth) + rest_b);
        lemma_same_nodes(a[0].1, b[0].1, depth, rest_a, rest_b, s);
        lemma_same_members(a.drop_first(), b.drop_first(), depth, after_a, after_b, s);
    }
}

// ---------------------------------------------------------------------------
// The encoder
// ---------------------------------------------------------------------------

/// The tabular form of a tree's document, if every lexeme can be cut out of the text and some
/// array becomes a table.
pub open spec fn tabulated_doc(tree: Tree, s: Seq<u8>) -> Option<Seq<u8>> {
    if resolvable(tree, s) && has_table(doc(tree, s), machine_digest()) {
        Some(tabular(doc(tree, s), machine_digest()))
    } else {
        None
    }
}

/// Render the tape in tabular form, or `None` if no array becomes a table or a lexeme cannot
/// be cut out of `input`. The body carries no sentinel.
#[verifier::rlimit(40)]
pub fn render(tape: &Tape, input: &str) -> (r: Option<String>)
    ensures
        tape@.len() == 0 ==> r is None,
        forall|tree: Tree|
            recordable(tree) && tape@ == #[trigger] tree_nodes(tree, 0) ==> ({
                let wanted = tabulated_doc(tree, encode_utf8(input@));
                match r {
                    Some(text) => wanted == Some(encode_utf8(text@)),
                    None => wanted is None,
                }
            }),
{
    let ghost s = encode_utf8(input@);
    let nodes = tape.nodes();
    let ghost all = nodes@;
    let n: usize = nodes.len();
    if n == 0 {
        proof {
            assert forall|tree: Tree| recordable(tree) implies all != #[trigger] tree_nodes(
                tree,
                0,
            ) by {
                lemma_size(tree, 0);
            }
        }
        return None;
    }
    let ghost root = choose|tree: Tree| recordable(tree) && all == #[trigger] tree_nodes(tree, 0);
    let ghost found = arrays(root, 0, 0);
    let ghost plan_map = planned(root, 0, s);
    let plans = analyze(nodes, input);
    proof {
        assert(all.subrange(0, all.len() as int) =~= all);
        lemma_size(root, 0);
        lemma_survey_tree(root, 0, Seq::empty(), s, 0, Seq::empty(), Map::empty());
        assert(tree_nodes(root, 0) + Seq::<Node>::empty() =~= all);
        assert(Map::<int, Plan>::empty().union_prefer_right(plan_map) =~= plan_map);
        lemma_surveyed(root, 0, 0, all, s);
        lemma_tabulated_tree(all, s, found, root, 0, 0, Seq::empty());
        assert forall|tree: Tree| recordable(tree) && all == #[trigger] tree_nodes(tree, 0) implies
            tabulated_doc(tree, s) == tabulated_doc(root, s) by {
            lemma_same_nodes(tree, root, 0, Seq::empty(), Seq::empty(), s);
        }
        if resolvable(root, s) {
            let text = tabular(doc(root, s), machine_digest());
            assert(value_gap(Seq::empty()) + text + Seq::<u8>::empty() =~= text);
        }
    }
    if fx_is_empty(&plans) {
        proof {
            assert forall|k: int| !(#[trigger] plan_map.dom().contains(k)) by {
                if plan_map.dom().contains(k) {
                    assert(plans@.dom().contains(k as u64));
                }
            }
            lemma_no_plans(all, s, found, plan_map, 0);
        }
        return None;
    }
    let mut out = String::new();
    let mut frames: Vec<Open> = Vec::new();
    let mut emitted_table = false;
    let mut i: usize = 0;
    let ghost wanted = tabulated(all, s, found, 0, Seq::empty());
    proof {
        assert(encode_utf8(Seq::<char>::empty()) =~= Seq::<u8>::empty());
        assert(frames@ =~= Seq::empty());
        if let Some(t) = wanted {
            assert(Seq::<u8>::empty() + t =~= t);
        }
    }
    while i < n
        invariant
            all == nodes@,
            n == all.len(),
            s == encode_utf8(input@),
            i <= n,
            plans_agree(plans@, plan_map),
            surveyed(found, plan_map, all, s, 0, n as int),
            wanted == tabulated(all, s, found, 0, Seq::empty()),
            prefixed(encode_utf8(out@), tabulated(all, s, found, i as int, frames@)) == wanted,
            (emitted_table || tabulates(all, s, found, i as int)) == tabulates(all, s, found, 0),
            tape@ == all,
            recordable(root),
            all == tree_nodes(root, 0),
            forall|tree: Tree|
                recordable(tree) && all == #[trigger] tree_nodes(tree, 0) ==> tabulated_doc(tree, s)
                    == tabulated_doc(root, s),
            wanted is None ==> tabulated_doc(root, s) is None,
        decreases n - i,
    {
        let ghost out1 = encode_utf8(out@);
        let ghost frames1 = frames@;
        let is_array = match nodes[i].kind {
            NodeKind::ArrayStart { .. } => true,
            _ => false,
        };
        let plan = if is_array {
            fx_get(&plans, i as u64)
        } else {
            None
        };
        match plan {
            Some(plan) => {
                let ghost tree = found[i as int].0;
                let ghost depth = found[i as int].1;
                let ghost items = tree_items(tree);
                proof {
                    assert(plan_map.dom().contains(i as int));
                    lemma_size(tree, depth);
                    let start = node(
                        NodeKind::ArrayStart { elements: items.len() as u32 },
                        tree->Array_open,
                        tree->Array_open + 1,
                        depth,
                    );
                    let end = node(
                        NodeKind::ArrayEnd,
                        tree->Array_close,
                        tree->Array_close + 1,
                        depth,
                    );
                    let inner = item_nodes(items, depth + 1);
                    lemma_tape_holds_concat(all, i as int, seq![start] + inner, seq![end]);
                    lemma_tape_holds_concat(all, i as int, seq![start], inner);
                    lemma_items_size(items, depth + 1);
                    lemma_with_items(opened(true, i as int), items);
                    assert(plan_at(all, s, found, i as int) == Some(plan_map[i as int]));
                }
                open_value(&mut frames, &mut out);
                let ghost out2 = encode_utf8(out@);
                if !emit_table(nodes, input, &mut out, i, plan, Ghost(items), Ghost(depth + 1)) {
                    return None;
                }
                proof {
                    let text = planned_table(items, plan_map[i as int], s)->0;
                    lemma_prefixed(
                        out1,
                        value_gap(frames1) + text,
                        tabulated(all, s, found, plan.end_index + 1, frames@),
                    );
                    assert(encode_utf8(out@) =~= out1 + (value_gap(frames1) + text));
                }
                emitted_table = true;
                i = plan.end_index + 1;
            },
            None => {
                proof {
                    if is_array && found.dom().contains(i as int) {
                        assert(!plan_map.dom().contains(i as int));
                    }
                    assert(plan_at(all, s, found, i as int) is None);
                }
                if !write_node(nodes[i], input, &mut out, &mut frames, Style::Verbatim) {
                    return None;
                }
                proof {
                    let (text, after) = step(all[i as int], s, Style::Verbatim, frames1)->0;
                    lemma_prefixed(out1, text, tabulated(all, s, found, i + 1, after));
                }
                i = i + 1;
            },
        }
    }
    proof {
        assert(encode_utf8(out@) + Seq::<u8>::empty() =~= encode_utf8(out@));
    }
    if emitted_table {
        Some(out)
    } else {
        None
    }
}

/// Without plans no table is written.
proof fn lemma_no_plans(
    nodes: Seq<Node>,
    s: Seq<u8>,
    found: Map<int, (Tree, int)>,
    plans: Map<int, Plan>,
    at: int,
)
    requires
        surveyed(found, plans, nodes, s, 0, nodes.len() as int),
        forall|k: int| !(#[trigger] plans.dom().contains(k)),
    ensures
        !tabulates(nodes, s, found, at),
    decreases nodes.len() - at,
{
    if at < nodes.len() {
        assert(!plans.dom().contains(at));
        lemma_no_plans(nodes, s, found, plans, at + 1);
    }
}

} // verus!
