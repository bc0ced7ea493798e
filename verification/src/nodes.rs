//! The nodes of a tape, seen from outside: where they stand, how deep, and what they count.
//!
//! [`tape`](crate::tape) builds the nodes along a tree. The laws here speak of the finished
//! row of nodes and the text alone.

use crate::documents::{lemma_document_read, nesting, proper, proper_items, proper_members};
use crate::error::CompressError;
use crate::faults::{
    agree, asked, law_text_at_the_offset_is_wrong, law_text_before_the_offset_is_in_order, telling,
};
use crate::grammar::{
    document, first_item, first_member, is_space, items, key, lemma_first_item, lemma_first_member,
    lemma_key, lemma_scalar, lemma_skip_space, lemma_value, members, more_items, more_members,
    skip_space, value, Fault, Place, Tree,
};
use crate::json::{doc, items_recordable, members_recordable, recordable, Json};
use crate::lexemes::{
    doc_entries, element_entries, entries, entry, field_entries, lemma_document_cut,
};
use crate::standard::{
    law_json_is_read, law_numbers_are_numerals, law_only_json_is_read, law_strings_are_characters,
    numeral, spells, string_text,
};
use crate::tape::{
    item_nodes, member_nodes, node, recorded_depth, tape_agrees, tree_nodes, Node, NodeKind, Tape,
};
use vstd::prelude::*;

verus! {

// ---------------------------------------------------------------------------
// Places
// ---------------------------------------------------------------------------

/// Whether nothing stands between two offsets but whitespace, commas and colons.
pub open spec fn nothing_between(s: Seq<u8>, a: int, b: int) -> bool {
    &&& 0 <= a <= b <= s.len()
    &&& forall|k: int|
        a <= k < b ==> (#[trigger] s[k] == 0x20 || s[k] == 0x09 || s[k] == 0x0A || s[k] == 0x0D
            || s[k] == 0x2C || s[k] == 0x3A)
}

/// Whether nodes stand in a text from one offset to another, one after the other, none of them
/// empty, and nothing is left out.
pub open spec fn cover(nodes: Seq<Node>, s: Seq<u8>, from: int, to: int) -> bool {
    if nodes.len() == 0 {
        nothing_between(s, from, to)
    } else {
        &&& nothing_between(s, from, nodes[0].span.start as int)
        &&& nothing_between(s, nodes.last().span.end as int, to)
        &&& forall|k: int|
            0 <= k < nodes.len() ==> (#[trigger] nodes[k]).span.start < nodes[k].span.end
        &&& forall|k: int|
            0 < k < nodes.len() ==> nothing_between(
                s,
                nodes[k - 1].span.end as int,
                (#[trigger] nodes[k]).span.start as int,
            )
    }
}

#[verifier::spinoff_prover]
#[verifier::rlimit(40)]
proof fn lemma_cover_concat(a: Seq<Node>, b: Seq<Node>, s: Seq<u8>, i: int, m: int, e: int)
    requires
        cover(a, s, i, m),
        cover(b, s, m, e),
    ensures
        cover(a + b, s, i, e),
{
    let c = a + b;
    if a.len() == 0 {
        assert(c =~= b);
    } else if b.len() == 0 {
        assert(c =~= a);
    } else {
        assert(c[0] == a[0] && c.last() == b.last());
        assert forall|k: int| 0 <= k < c.len() implies (#[trigger] c[k]).span.start
            < c[k].span.end by {
            if k < a.len() {
                assert(c[k] == a[k]);
            } else {
                assert(c[k] == b[k - a.len()]);
            }
        }
        assert forall|k: int| 0 < k < c.len() implies nothing_between(
            s,
            c[k - 1].span.end as int,
            (#[trigger] c[k]).span.start as int,
        ) by {
            if k < a.len() {
                assert(c[k] == a[k] && c[k - 1] == a[k - 1]);
            } else if k > a.len() {
                assert(c[k] == b[k - a.len()] && c[k - 1] == b[k - a.len() - 1]);
            } else {
                assert(c[k] == b[0] && c[k - 1] == a.last());
            }
        }
    }
}

proof fn lemma_cover_one(n: Node, s: Seq<u8>, i: int)
    requires
        0 <= i <= n.span.start < n.span.end <= s.len(),
        nothing_between(s, i, n.span.start as int),
    ensures
        cover(seq![n], s, i, n.span.end as int),
{
}

proof fn lemma_space_between(s: Seq<u8>, i: int)
    requires
        0 <= i <= s.len(),
    ensures
        nothing_between(s, i, skip_space(s, i)),
        skip_space(s, i) < s.len() && (s[skip_space(s, i)] == 0x2C || s[skip_space(s, i)] == 0x3A)
            ==> nothing_between(s, i, skip_space(s, i) + 1),
{
    lemma_skip_space(s, i);
    assert forall|k: int| i <= k < skip_space(s, i) implies is_space(#[trigger] s[k]) by {}
}

#[verifier::spinoff_prover]
#[verifier::rlimit(40)]
proof fn lemma_value_covered(s: Seq<u8>, i: int, depth: int, limit: int, level: int)
    requires
        0 <= i <= s.len() <= u32::MAX,
        value(s, i, depth, limit) is Ok,
    ensures
        ({
            let (tree, end) = value(s, i, depth, limit)->Ok_0;
            cover(tree_nodes(tree, level), s, i, end)
        }),
    decreases s.len() - i, 3int,
{
    lemma_skip_space(s, i);
    lemma_space_between(s, i);
    lemma_value(s, i, depth, limit);
    let p = skip_space(s, i);
    let (tree, end) = value(s, i, depth, limit)->Ok_0;
    if s[p] == 0x7B {
        lemma_first_member_covered(s, p + 1, depth + 1, limit, level + 1);
        lemma_first_member(s, p + 1, depth + 1, limit);
        let (ms, close) = first_member(s, p + 1, depth + 1, limit)->Ok_0;
        let a = node(NodeKind::ObjectStart { members: ms.len() as u32 }, p, p + 1, level);
        let b = node(NodeKind::ObjectEnd, close, close + 1, level);
        let inner = member_nodes(ms, level + 1);
        lemma_cover_one(a, s, i);
        lemma_cover_one(b, s, close);
        lemma_cover_concat(seq![a], inner, s, i, p + 1, close);
        lemma_cover_concat(seq![a] + inner, seq![b], s, i, close, end);
    } else if s[p] == 0x5B {
        lemma_first_item_covered(s, p + 1, depth + 1, limit, level + 1);
        lemma_first_item(s, p + 1, depth + 1, limit);
        let (ts, close) = first_item(s, p + 1, depth + 1, limit)->Ok_0;
        let a = node(NodeKind::ArrayStart { elements: ts.len() as u32 }, p, p + 1, level);
        let b = node(NodeKind::ArrayEnd, close, close + 1, level);
        let inner = item_nodes(ts, level + 1);
        lemma_cover_one(a, s, i);
        lemma_cover_one(b, s, close);
        lemma_cover_concat(seq![a], inner, s, i, p + 1, close);
        lemma_cover_concat(seq![a] + inner, seq![b], s, i, close, end);
    } else {
        lemma_scalar(s, p);
        lemma_cover_one(tree_nodes(tree, level)[0], s, i);
    }
}

proof fn lemma_first_item_covered(s: Seq<u8>, i: int, depth: int, limit: int, level: int)
    requires
        0 <= i <= s.len() <= u32::MAX,
        first_item(s, i, depth, limit) is Ok,
    ensures
        ({
            let (ts, close) = first_item(s, i, depth, limit)->Ok_0;
            cover(item_nodes(ts, level), s, i, close)
        }),
    decreases s.len() - i, 5int,
{
    lemma_skip_space(s, i);
    lemma_space_between(s, i);
    let p = skip_space(s, i);
    let (ts, close) = first_item(s, i, depth, limit)->Ok_0;
    if s[p] == 0x5D {
        assert(item_nodes(ts, level) =~= Seq::<Node>::empty());
    } else {
        lemma_items_covered(s, p, depth, limit, level);
        let none = Seq::<Node>::empty();
        lemma_cover_concat(none, item_nodes(ts, level), s, i, p, close);
        assert(none + item_nodes(ts, level) =~= item_nodes(ts, level));
    }
}

#[verifier::spinoff_prover]
#[verifier::rlimit(40)]
proof fn lemma_items_covered(s: Seq<u8>, i: int, depth: int, limit: int, level: int)
    requires
        0 <= i <= s.len() <= u32::MAX,
        items(s, i, depth, limit) is Ok,
    ensures
        ({
            let (ts, close) = items(s, i, depth, limit)->Ok_0;
            cover(item_nodes(ts, level), s, i, close)
        }),
    decreases s.len() - i, 4int,
{
    lemma_value(s, i, depth, limit);
    lemma_value_covered(s, i, depth, limit, level);
    let (first, j) = value(s, i, depth, limit)->Ok_0;
    lemma_more_items_covered(s, j, depth, limit, level);
    let (rest, close) = more_items(s, j, depth, limit)->Ok_0;
    let ts = seq![first] + rest;
    assert(ts.drop_first() =~= rest);
    assert(items(s, i, depth, limit) == Ok::<(Seq<Tree>, int), Fault>((ts, close)));
    assert(item_nodes(ts, level) == tree_nodes(first, level) + item_nodes(rest, level)) by {
        assert(ts[0] == first);
    }
    lemma_cover_concat(tree_nodes(first, level), item_nodes(rest, level), s, i, j, close);
}

proof fn lemma_more_items_covered(s: Seq<u8>, i: int, depth: int, limit: int, level: int)
    requires
        0 <= i <= s.len() <= u32::MAX,
        more_items(s, i, depth, limit) is Ok,
    ensures
        ({
            let (ts, close) = more_items(s, i, depth, limit)->Ok_0;
            cover(item_nodes(ts, level), s, i, close)
        }),
    decreases s.len() - i, 2int,
{
    lemma_skip_space(s, i);
    lemma_space_between(s, i);
    let p = skip_space(s, i);
    let (ts, close) = more_items(s, i, depth, limit)->Ok_0;
    if s[p] == 0x2C {
        lemma_items_covered(s, p + 1, depth, limit, level);
        let none = Seq::<Node>::empty();
        lemma_cover_concat(none, item_nodes(ts, level), s, i, p + 1, close);
        assert(none + item_nodes(ts, level) =~= item_nodes(ts, level));
    } else {
        assert(item_nodes(ts, level) =~= Seq::<Node>::empty());
    }
}

proof fn lemma_first_member_covered(s: Seq<u8>, i: int, depth: int, limit: int, level: int)
    requires
        0 <= i <= s.len() <= u32::MAX,
        first_member(s, i, depth, limit) is Ok,
    ensures
        ({
            let (ms, close) = first_member(s, i, depth, limit)->Ok_0;
            cover(member_nodes(ms, level), s, i, close)
        }),
    decreases s.len() - i, 5int,
{
    lemma_skip_space(s, i);
    lemma_space_between(s, i);
    let p = skip_space(s, i);
    let (ms, close) = first_member(s, i, depth, limit)->Ok_0;
    if s[p] == 0x7D {
        assert(member_nodes(ms, level) =~= Seq::<Node>::empty());
    } else {
        lemma_members_covered(s, p, depth, limit, level);
        let none = Seq::<Node>::empty();
        lemma_cover_concat(none, member_nodes(ms, level), s, i, p, close);
        assert(none + member_nodes(ms, level) =~= member_nodes(ms, level));
    }
}

#[verifier::spinoff_prover]
#[verifier::rlimit(40)]
proof fn lemma_members_covered(s: Seq<u8>, p: int, depth: int, limit: int, level: int)
    requires
        0 <= p < s.len() <= u32::MAX,
        members(s, p, depth, limit) is Ok,
    ensures
        ({
            let (ms, close) = members(s, p, depth, limit)->Ok_0;
            cover(member_nodes(ms, level), s, p, close)
        }),
    decreases s.len() - p, 4int,
{
    lemma_key(s, p);
    let (place, v) = key(s, p)->Ok_0;
    lemma_skip_space(s, place.end);
    lemma_space_between(s, place.end);
    lemma_value(s, v, depth, limit);
    lemma_value_covered(s, v, depth, limit, level);
    let (first, j) = value(s, v, depth, limit)->Ok_0;
    lemma_more_members_covered(s, j, depth, limit, level);
    let (rest, close) = more_members(s, j, depth, limit)->Ok_0;
    let ms = seq![(place, first)] + rest;
    assert(ms.drop_first() =~= rest);
    let k = node(NodeKind::Key, place.start, place.end, level);
    lemma_cover_one(k, s, p);
    let none = Seq::<Node>::empty();
    lemma_cover_concat(seq![k], none, s, p, place.end, v);
    assert(seq![k] + none =~= seq![k]);
    lemma_cover_concat(seq![k], tree_nodes(first, level), s, p, v, j);
    lemma_cover_concat(
        seq![k] + tree_nodes(first, level),
        member_nodes(rest, level),
        s,
        p,
        j,
        close,
    );
}

proof fn lemma_more_members_covered(s: Seq<u8>, i: int, depth: int, limit: int, level: int)
    requires
        0 <= i <= s.len() <= u32::MAX,
        more_members(s, i, depth, limit) is Ok,
    ensures
        ({
            let (ms, close) = more_members(s, i, depth, limit)->Ok_0;
            cover(member_nodes(ms, level), s, i, close)
        }),
    decreases s.len() - i, 2int,
{
    lemma_skip_space(s, i);
    lemma_space_between(s, i);
    let p = skip_space(s, i);
    let (ms, close) = more_members(s, i, depth, limit)->Ok_0;
    if s[p] == 0x2C {
        lemma_skip_space(s, p + 1);
        lemma_space_between(s, p + 1);
        let q = skip_space(s, p + 1);
        lemma_members_covered(s, q, depth, limit, level);
        let none = Seq::<Node>::empty();
        lemma_cover_concat(none, member_nodes(ms, level), s, p + 1, q, close);
        lemma_cover_concat(none, member_nodes(ms, level), s, i, p + 1, close);
        assert(none + member_nodes(ms, level) =~= member_nodes(ms, level));
    } else {
        assert(member_nodes(ms, level) =~= Seq::<Node>::empty());
    }
}

/// The nodes of a text stand in source order, none of them empty, and between them, before and
/// after them there is nothing but whitespace, commas and colons: no lexeme is left out.
pub proof fn law_nodes_cover_the_text(s: Seq<u8>, limit: int)
    requires
        s.len() <= u32::MAX,
        document(s, limit) is Ok,
    ensures
        cover(tree_nodes(document(s, limit)->Ok_0, 0), s, 0, s.len() as int),
{
    lemma_value_covered(s, 0, 0, limit, 0);
    let (tree, end) = value(s, 0, 0, limit)->Ok_0;
    lemma_value(s, 0, 0, limit);
    lemma_skip_space(s, end);
    lemma_space_between(s, end);
    let none = Seq::<Node>::empty();
    lemma_cover_concat(tree_nodes(tree, 0), none, s, 0, end, s.len() as int);
    assert(tree_nodes(tree, 0) + none =~= tree_nodes(tree, 0));
}

// ---------------------------------------------------------------------------
// Depths
// ---------------------------------------------------------------------------

/// A node that opens a container.
pub open spec fn opens(n: Node) -> bool {
    n.kind is ArrayStart || n.kind is ObjectStart
}

/// A node that closes one.
pub open spec fn closes(n: Node) -> bool {
    n.kind is ArrayEnd || n.kind is ObjectEnd
}

/// How many containers are open after the first `k` nodes.
pub open spec fn open_after(nodes: Seq<Node>, k: int) -> int
    decreases k,
{
    if k <= 0 {
        0
    } else {
        open_after(nodes, k - 1) + (if opens(nodes[k - 1]) {
            1int
        } else if closes(nodes[k - 1]) {
            -1int
        } else {
            0int
        })
    }
}

/// Whether every node records how many containers are open around it, inside `level` others.
pub open spec fn depths_hold(nodes: Seq<Node>, level: int) -> bool {
    forall|k: int|
        0 <= k < nodes.len() ==> ({
            let around = level + open_after(nodes, k) - (if closes(nodes[k]) {
                1int
            } else {
                0int
            });
            (#[trigger] nodes[k]).depth == (if around > 0xFFFF {
                0xFFFF
            } else {
                around
            })
        })
}

proof fn lemma_open_concat(a: Seq<Node>, b: Seq<Node>, k: int)
    requires
        0 <= k <= a.len() + b.len(),
    ensures
        open_after(a + b, k) == (if k <= a.len() {
            open_after(a, k)
        } else {
            open_after(a, a.len() as int) + open_after(b, k - a.len())
        }),
    decreases k,
{
    if k > 0 {
        lemma_open_concat(a, b, k - 1);
        assert(open_after(b, 0) == 0);
        if k <= a.len() {
            assert((a + b)[k - 1] == a[k - 1]);
        } else {
            assert((a + b)[k - 1] == b[k - 1 - a.len()]);
        }
    }
}

#[verifier::spinoff_prover]
#[verifier::rlimit(40)]
proof fn lemma_depths_concat(a: Seq<Node>, b: Seq<Node>, level: int)
    requires
        depths_hold(a, level),
        depths_hold(b, level + open_after(a, a.len() as int)),
    ensures
        depths_hold(a + b, level),
        open_after(a + b, (a + b).len() as int) == open_after(a, a.len() as int) + open_after(
            b,
            b.len() as int,
        ),
{
    let c = a + b;
    assert forall|k: int| 0 <= k < c.len() implies ({
        let around = level + open_after(c, k) - (if closes(c[k]) {
            1int
        } else {
            0int
        });
        (#[trigger] c[k]).depth == (if around > 0xFFFF {
            0xFFFF
        } else {
            around
        })
    }) by {
        lemma_open_concat(a, b, k);
        if k < a.len() {
            assert(c[k] == a[k]);
        } else {
            assert(c[k] == b[k - a.len()]);
            assert(k == a.len() ==> open_after(b, 0) == 0);
        }
    }
    lemma_open_concat(a, b, c.len() as int);
    assert(b.len() == 0 ==> open_after(b, 0) == 0);
}

proof fn lemma_depths_one(n: Node, level: int)
    requires
        0 <= level,
        n.depth == recorded_depth(
            level - (if closes(n) {
                1int
            } else {
                0int
            }),
        ),
        closes(n) ==> level > 0,
    ensures
        depths_hold(seq![n], level),
        open_after(seq![n], 1) == (if opens(n) {
            1int
        } else if closes(n) {
            -1int
        } else {
            0int
        }),
{
    reveal_with_fuel(open_after, 2);
}

proof fn lemma_tree_depths(tree: Tree, level: int)
    requires
        0 <= level,
        recordable(tree),
    ensures
        depths_hold(tree_nodes(tree, level), level),
        open_after(tree_nodes(tree, level), tree_nodes(tree, level).len() as int) == 0,
    decreases tree,
{
    match tree {
        Tree::Leaf { kind, place } => {
            lemma_depths_one(node(kind, place.start, place.end, level), level);
        },
        Tree::Array { open, items, close } => {
            let a = node(
                NodeKind::ArrayStart { elements: items.len() as u32 },
                open,
                open + 1,
                level,
            );
            let b = node(NodeKind::ArrayEnd, close, close + 1, level);
            lemma_depths_one(a, level);
            lemma_item_depths(items, level + 1);
            lemma_depths_concat(seq![a], item_nodes(items, level + 1), level);
            lemma_depths_one(b, level + 1);
            lemma_depths_concat(seq![a] + item_nodes(items, level + 1), seq![b], level);
        },
        Tree::Object { open, members, close } => {
            let a = node(
                NodeKind::ObjectStart { members: members.len() as u32 },
                open,
                open + 1,
                level,
            );
            let b = node(NodeKind::ObjectEnd, close, close + 1, level);
            lemma_depths_one(a, level);
            lemma_member_depths(members, level + 1);
            lemma_depths_concat(seq![a], member_nodes(members, level + 1), level);
            lemma_depths_one(b, level + 1);
            lemma_depths_concat(seq![a] + member_nodes(members, level + 1), seq![b], level);
        },
    }
}

proof fn lemma_item_depths(items: Seq<Tree>, level: int)
    requires
        0 <= level,
        items_recordable(items),
    ensures
        depths_hold(item_nodes(items, level), level),
        open_after(item_nodes(items, level), item_nodes(items, level).len() as int) == 0,
    decreases items,
{
    if items.len() > 0 {
        lemma_tree_depths(items[0], level);
        lemma_item_depths(items.drop_first(), level);
        lemma_depths_concat(
            tree_nodes(items[0], level),
            item_nodes(items.drop_first(), level),
            level,
        );
    }
}

proof fn lemma_member_depths(members: Seq<(Place, Tree)>, level: int)
    requires
        0 <= level,
        members_recordable(members),
    ensures
        depths_hold(member_nodes(members, level), level),
        open_after(member_nodes(members, level), member_nodes(members, level).len() as int) == 0,
    decreases members,
{
    if members.len() > 0 {
        let k = node(NodeKind::Key, members[0].0.start, members[0].0.end, level);
        lemma_depths_one(k, level);
        lemma_tree_depths(members[0].1, level);
        lemma_depths_concat(seq![k], tree_nodes(members[0].1, level), level);
        lemma_member_depths(members.drop_first(), level);
        lemma_depths_concat(
            seq![k] + tree_nodes(members[0].1, level),
            member_nodes(members.drop_first(), level),
            level,
        );
    }
}

/// Every node records how many containers are open around it, up to 65535; and at the end of
/// the nodes none is.
pub proof fn law_depths_count_open_containers(s: Seq<u8>, limit: int)
    requires
        s.len() <= u32::MAX,
        document(s, limit) is Ok,
    ensures
        ({
            let nodes = tree_nodes(document(s, limit)->Ok_0, 0);
            depths_hold(nodes, 0) && open_after(nodes, nodes.len() as int) == 0
        }),
{
    lemma_document_read(s, limit);
    lemma_tree_depths(document(s, limit)->Ok_0, 0);
}

// ---------------------------------------------------------------------------
// Counts
// ---------------------------------------------------------------------------

/// How many values stand in a container of which `nodes` is the rest, `level` containers
/// further in.
pub open spec fn values_in(nodes: Seq<Node>, level: nat) -> nat
    decreases nodes.len(),
{
    if nodes.len() == 0 || (closes(nodes[0]) && level == 0) {
        0
    } else {
        let here = if level == 0 && nodes[0].kind !is Key {
            1nat
        } else {
            0nat
        };
        let inner = if opens(nodes[0]) {
            level + 1
        } else if closes(nodes[0]) {
            (level - 1) as nat
        } else {
            level
        };
        here + values_in(nodes.drop_first(), inner)
    }
}

/// Whether every node that opens a container records how many values stand in it, where `rest`
/// follows the nodes.
pub open spec fn counts_hold(nodes: Seq<Node>, rest: Seq<Node>) -> bool {
    forall|k: int|
        0 <= k < nodes.len() ==> match (#[trigger] nodes[k]).kind {
            NodeKind::ArrayStart { elements } => elements == values_in(
                (nodes + rest).skip(k + 1),
                0,
            ),
            NodeKind::ObjectStart { members } => members == values_in((nodes + rest).skip(k + 1), 0),
            _ => true,
        }
}

proof fn lemma_counts_concat(a: Seq<Node>, b: Seq<Node>, rest: Seq<Node>)
    requires
        counts_hold(a, b + rest),
        counts_hold(b, rest),
    ensures
        counts_hold(a + b, rest),
{
    let c = a + b;
    assert forall|k: int| 0 <= k < c.len() implies match (#[trigger] c[k]).kind {
        NodeKind::ArrayStart { elements } => elements == values_in((c + rest).skip(k + 1), 0),
        NodeKind::ObjectStart { members } => members == values_in((c + rest).skip(k + 1), 0),
        _ => true,
    } by {
        if k < a.len() {
            assert(c[k] == a[k]);
            assert((c + rest).skip(k + 1) =~= (a + (b + rest)).skip(k + 1));
        } else {
            assert(c[k] == b[k - a.len()]);
            assert((c + rest).skip(k + 1) =~= (b + rest).skip(k - a.len() + 1));
        }
    }
}

proof fn lemma_counts_one(n: Node, rest: Seq<Node>)
    requires
        match n.kind {
            NodeKind::ArrayStart { elements } => elements == values_in(rest, 0),
            NodeKind::ObjectStart { members } => members == values_in(rest, 0),
            _ => true,
        },
    ensures
        counts_hold(seq![n], rest),
{
    assert((seq![n] + rest).skip(1) =~= rest);
}

proof fn lemma_values_step(n: Node, rest: Seq<Node>, level: nat)
    ensures
        !(closes(n) && level == 0) ==> values_in(seq![n] + rest, level) == (if level == 0 && n.kind
            !is Key {
            1nat
        } else {
            0nat
        }) + values_in(
            rest,
            if opens(n) {
                level + 1
            } else if closes(n) {
                (level - 1) as nat
            } else {
                level
            },
        ),
        closes(n) && level == 0 ==> values_in(seq![n] + rest, level) == 0,
{
    assert((seq![n] + rest).drop_first() =~= rest);
}

#[verifier::spinoff_prover]
#[verifier::rlimit(40)]
proof fn lemma_tree_values(tree: Tree, depth: int, rest: Seq<Node>, level: nat)
    requires
        recordable(tree),
    ensures
        values_in(tree_nodes(tree, depth) + rest, level) == (if level == 0 {
            1nat
        } else {
            0nat
        }) + values_in(rest, level),
        counts_hold(tree_nodes(tree, depth), rest),
    decreases tree,
{
    match tree {
        Tree::Leaf { kind, place } => {
            let n = node(kind, place.start, place.end, depth);
            lemma_values_step(n, rest, level);
            lemma_counts_one(n, rest);
        },
        Tree::Array { open, items, close } => {
            let a = node(
                NodeKind::ArrayStart { elements: items.len() as u32 },
                open,
                open + 1,
                depth,
            );
            let b = node(NodeKind::ArrayEnd, close, close + 1, depth);
            let inner = item_nodes(items, depth + 1);
            let end = seq![b] + rest;
            assert(tree_nodes(tree, depth) + rest =~= seq![a] + (inner + end));
            lemma_values_step(a, inner + end, level);
            lemma_item_values(items, depth + 1, end, level + 1);
            lemma_item_values(items, depth + 1, end, 0);
            lemma_values_step(b, rest, level + 1);
            lemma_values_step(b, rest, 0);
            lemma_counts_one(a, inner + end);
            lemma_counts_concat(seq![a], inner, end);
            lemma_counts_one(b, rest);
            lemma_counts_concat(seq![a] + inner, seq![b], rest);
        },
        Tree::Object { open, members, close } => {
            let a = node(
                NodeKind::ObjectStart { members: members.len() as u32 },
                open,
                open + 1,
                depth,
            );
            let b = node(NodeKind::ObjectEnd, close, close + 1, depth);
            let inner = member_nodes(members, depth + 1);
            let end = seq![b] + rest;
            assert(tree_nodes(tree, depth) + rest =~= seq![a] + (inner + end));
            lemma_values_step(a, inner + end, level);
            lemma_member_values(members, depth + 1, end, level + 1);
            lemma_member_values(members, depth + 1, end, 0);
            lemma_values_step(b, rest, level + 1);
            lemma_values_step(b, rest, 0);
            lemma_counts_one(a, inner + end);
            lemma_counts_concat(seq![a], inner, end);
            lemma_counts_one(b, rest);
            lemma_counts_concat(seq![a] + inner, seq![b], rest);
        },
    }
}

proof fn lemma_item_values(items: Seq<Tree>, depth: int, rest: Seq<Node>, level: nat)
    requires
        items_recordable(items),
    ensures
        values_in(item_nodes(items, depth) + rest, level) == (if level == 0 {
            items.len()
        } else {
            0nat
        }) + values_in(rest, level),
        counts_hold(item_nodes(items, depth), rest),
    decreases items,
{
    if items.len() == 0 {
        assert(item_nodes(items, depth) + rest =~= rest);
    } else {
        let others = items.drop_first();
        let a = tree_nodes(items[0], depth);
        let b = item_nodes(others, depth);
        assert(item_nodes(items, depth) + rest =~= a + (b + rest));
        lemma_item_values(others, depth, rest, level);
        lemma_tree_values(items[0], depth, b + rest, level);
        lemma_counts_concat(a, b, rest);
    }
}

#[verifier::spinoff_prover]
#[verifier::rlimit(40)]
proof fn lemma_member_values(
    members: Seq<(Place, Tree)>,
    depth: int,
    rest: Seq<Node>,
    level: nat,
)
    requires
        members_recordable(members),
    ensures
        values_in(member_nodes(members, depth) + rest, level) == (if level == 0 {
            members.len()
        } else {
            0nat
        }) + values_in(rest, level),
        counts_hold(member_nodes(members, depth), rest),
    decreases members,
{
    if members.len() == 0 {
        assert(member_nodes(members, depth) + rest =~= rest);
    } else {
        let others = members.drop_first();
        let k = node(NodeKind::Key, members[0].0.start, members[0].0.end, depth);
        let a = tree_nodes(members[0].1, depth);
        let b = member_nodes(others, depth);
        assert(member_nodes(members, depth) + rest =~= seq![k] + (a + (b + rest)));
        lemma_values_step(k, a + (b + rest), level);
        lemma_member_values(others, depth, rest, level);
        lemma_tree_values(members[0].1, depth, b + rest, level);
        lemma_counts_one(k, a + (b + rest));
        lemma_counts_concat(seq![k], a, b + rest);
        lemma_counts_concat(seq![k] + a, b, rest);
    }
}

/// Every node that opens a container records how many values stand in it.
pub proof fn law_counts_are_exact(s: Seq<u8>, limit: int)
    requires
        s.len() <= u32::MAX,
        document(s, limit) is Ok,
    ensures
        counts_hold(tree_nodes(document(s, limit)->Ok_0, 0), Seq::empty()),
{
    lemma_document_read(s, limit);
    lemma_tree_values(document(s, limit)->Ok_0, 0, Seq::empty(), 0);
}

// ---------------------------------------------------------------------------
// Kinds
// ---------------------------------------------------------------------------

/// Whether a kind is that of a lexeme.
pub open spec fn names(kind: NodeKind, l: Seq<u8>) -> bool {
    match kind {
        NodeKind::Null => l == seq![0x6Eu8, 0x75, 0x6C, 0x6C],
        NodeKind::Bool(true) => l == seq![0x74u8, 0x72, 0x75, 0x65],
        NodeKind::Bool(false) => l == seq![0x66u8, 0x61, 0x6C, 0x73, 0x65],
        NodeKind::Number => numeral(l),
        NodeKind::String | NodeKind::Key => string_text(l),
        NodeKind::ArrayStart { .. } => l == seq![0x5Bu8],
        NodeKind::ArrayEnd => l == seq![0x5Du8],
        NodeKind::ObjectStart { .. } => l == seq![0x7Bu8],
        NodeKind::ObjectEnd => l == seq![0x7Du8],
    }
}

spec fn all_named(es: Seq<(NodeKind, u16, Seq<u8>)>) -> bool {
    forall|k: int| 0 <= k < es.len() ==> names((#[trigger] es[k]).0, es[k].2)
}

proof fn lemma_named_concat(a: Seq<(NodeKind, u16, Seq<u8>)>, b: Seq<(NodeKind, u16, Seq<u8>)>)
    requires
        all_named(a),
        all_named(b),
    ensures
        all_named(a + b),
{
    assert forall|k: int| 0 <= k < (a + b).len() implies names(
        (#[trigger] (a + b)[k]).0,
        (a + b)[k].2,
    ) by {
        if k < a.len() {
            assert((a + b)[k] == a[k]);
        } else {
            assert((a + b)[k] == b[k - a.len()]);
        }
    }
}

proof fn lemma_entries_named(j: Json, depth: int)
    requires
        proper(j),
    ensures
        all_named(doc_entries(j, depth)),
    decreases j,
{
    match j {
        Json::Scalar(l) => {
            law_numbers_are_numerals(l);
        },
        Json::String(l) => {
            law_strings_are_characters(l);
        },
        Json::Array(elements) => {
            let d = recorded_depth(depth);
            let a = seq![
                (NodeKind::ArrayStart { elements: elements.len() as u32 }, d, seq![0x5Bu8]),
            ];
            let b = seq![(NodeKind::ArrayEnd, d, seq![0x5Du8])];
            lemma_elements_named(elements, depth + 1);
            lemma_named_concat(a, element_entries(elements, depth + 1));
            lemma_named_concat(a + element_entries(elements, depth + 1), b);
        },
        Json::Object(fields) => {
            let d = recorded_depth(depth);
            let a = seq![
                (NodeKind::ObjectStart { members: fields.len() as u32 }, d, seq![0x7Bu8]),
            ];
            let b = seq![(NodeKind::ObjectEnd, d, seq![0x7Du8])];
            lemma_fields_named(fields, depth + 1);
            lemma_named_concat(a, field_entries(fields, depth + 1));
            lemma_named_concat(a + field_entries(fields, depth + 1), b);
        },
    }
}

proof fn lemma_elements_named(elements: Seq<Json>, depth: int)
    requires
        proper_items(elements),
    ensures
        all_named(element_entries(elements, depth)),
    decreases elements,
{
    if elements.len() > 0 {
        lemma_entries_named(elements[0], depth);
        lemma_elements_named(elements.drop_first(), depth);
        lemma_named_concat(
            doc_entries(elements[0], depth),
            element_entries(elements.drop_first(), depth),
        );
    }
}

proof fn lemma_fields_named(fields: Seq<(Seq<u8>, Json)>, depth: int)
    requires
        proper_members(fields),
    ensures
        all_named(field_entries(fields, depth)),
    decreases fields,
{
    if fields.len() > 0 {
        let k = seq![(NodeKind::Key, recorded_depth(depth), fields[0].0)];
        law_strings_are_characters(fields[0].0);
        lemma_entries_named(fields[0].1, depth);
        lemma_fields_named(fields.drop_first(), depth);
        lemma_named_concat(k, doc_entries(fields[0].1, depth));
        lemma_named_concat(
            k + doc_entries(fields[0].1, depth),
            field_entries(fields.drop_first(), depth),
        );
    }
}

/// Every node is of the kind of the lexeme that it stands on.
pub proof fn law_kinds_name_their_lexemes(s: Seq<u8>, limit: int)
    requires
        s.len() <= u32::MAX,
        document(s, limit) is Ok,
    ensures
        ({
            let nodes = tree_nodes(document(s, limit)->Ok_0, 0);
            forall|k: int|
                0 <= k < nodes.len() ==> names(
                    (#[trigger] nodes[k]).kind,
                    s.subrange(nodes[k].span.start as int, nodes[k].span.end as int),
                )
        }),
{
    let tree = document(s, limit)->Ok_0;
    let nodes = tree_nodes(tree, 0);
    lemma_document_read(s, limit);
    lemma_document_cut(s, limit);
    lemma_entries_named(doc(tree, s), 0);
    assert forall|k: int| 0 <= k < nodes.len() implies names(
        (#[trigger] nodes[k]).kind,
        s.subrange(nodes[k].span.start as int, nodes[k].span.end as int),
    ) by {
        assert(entries(nodes, s)[k] == entry(nodes[k], s));
    }
}

// ---------------------------------------------------------------------------
// Parsing
// ---------------------------------------------------------------------------

/// What parsing a text comes to. Exactly the texts of JSON that nest no deeper than the limit
/// have a tape, whose nodes cover the text, each of the kind of its lexeme, with its depth and
/// its count. Of the others JSON that nests deeper is refused for its depth; and the offset of
/// any other refusal is where the text stops being JSON.
#[verifier::spinoff_prover]
#[verifier::rlimit(40)]
pub proof fn law_parse_reads_json(r: Result<Tape, CompressError>, s: Seq<u8>, limit: int)
    requires
        tape_agrees(r, document(s, limit), limit),
        0 <= limit <= usize::MAX,
        s.len() <= u32::MAX,
    ensures
        r is Ok <==> exists|j: Json| #[trigger] spells(s, j) && nesting(j) <= limit,
        r matches Ok(tape) ==> {
            &&& cover(tape@, s, 0, s.len() as int)
            &&& depths_hold(tape@, 0)
            &&& counts_hold(tape@, Seq::empty())
            &&& forall|k: int|
                0 <= k < tape@.len() ==> names(
                    (#[trigger] tape@[k]).kind,
                    s.subrange(tape@[k].span.start as int, tape@[k].span.end as int),
                )
        },
        forall|j: Json| #[trigger]
            spells(s, j) && nesting(j) > limit ==> (r matches Err(CompressError::DepthExceeded {
                depth,
                limit: allowed,
            }) && depth == limit + 1 && allowed == limit),
        r matches Err(e) ==> e is InvalidJson || e is DepthExceeded,
        r matches Err(CompressError::InvalidJson { byte_offset, msg }) ==> {
            &&& byte_offset <= s.len()
            &&& exists|x: Seq<u8>, j: Json| #[trigger]
                spells(s.take(byte_offset as int) + x, j) && nesting(j) <= limit && (asked(
                    msg@,
                    x,
                    s,
                    byte_offset as int,
                ) || (x.len() == 0 && byte_offset < s.len() && msg@
                    == "trailing data after top-level value"@))
            &&& forall|t: Seq<u8>, j: Json|
                #![trigger spells(t, j)]
                byte_offset < s.len() && agree(
                    s,
                    t,
                    byte_offset + telling(s, byte_offset as int),
                ) ==> !spells(t, j)
        },
{
    match document(s, limit) {
        Ok(tree) => {
            law_only_json_is_read(s, limit);
            law_nodes_cover_the_text(s, limit);
            law_depths_count_open_containers(s, limit);
            law_counts_are_exact(s, limit);
            law_kinds_name_their_lexemes(s, limit);
        },
        Err(Fault::Syntax { at, msg }) => {
            law_text_before_the_offset_is_in_order(s, limit, at, msg);
            assert forall|t: Seq<u8>, j: Json|
                #![trigger spells(t, j)]
                at < s.len() && agree(s, t, at + telling(s, at)) implies !spells(t, j) by {
                law_text_at_the_offset_is_wrong(s, limit, at, msg, t);
            }
        },
        Err(_) => {},
    }
    assert forall|j: Json| #[trigger] spells(s, j) implies (nesting(j) <= limit ==> document(
        s,
        limit,
    ) is Ok) && (nesting(j) > limit ==> document(s, limit) == Err::<Tree, Fault>(
        Fault::TooDeep { depth: limit + 1 },
    )) by {
        law_json_is_read(s, j, limit);
    }
}

} // verus!
