//! Minified JSON, written node by node from a tape.
//!
//! A node's text depends on the containers open around it only through the commas. [`step`]
//! says what one node writes, [`written`] what a run of nodes writes, and
//! [`lemma_written_tree`] that the nodes of a tree write the minified document.

use crate::ascii::{COLON, COMMA, LBRACE, LBRACKET, RBRACE, RBRACKET};
use crate::encoder::e1_minify::emit_string;
use crate::grammar::{Place, Tree};
use crate::json::{
    doc, gap, item_docs, items_recordable, items_resolvable, lexeme, member_docs,
    members_recordable, members_resolvable, minified, minified_items, minified_members,
    recordable, resolvable, styled, Style,
};
use crate::tape::{item_nodes, member_nodes, node, tree_nodes, Node, NodeKind, Span};
use crate::text::{push_ascii, push_str, slice_str, sliceable};
use vstd::prelude::*;
use vstd::utf8::encode_utf8;

verus! {

/// One open container; `seen` records whether a child has been written, which decides the
/// comma before the next.
#[derive(Clone, Copy, PartialEq, Eq, Structural)]
pub struct Open {
    pub is_array: bool,
    pub seen: bool,
}

/// The lexeme of a span, if it can be cut out of the text.
pub open spec fn span_text(s: Seq<u8>, span: Span) -> Option<Seq<u8>> {
    if sliceable(s, span.start as int, span.end as int) {
        Some(s.subrange(span.start as int, span.end as int))
    } else {
        None
    }
}

/// What precedes a value: a comma before every array element but the first. In an object the
/// comma stands before the key.
pub open spec fn value_gap(frames: Seq<Open>) -> Seq<u8> {
    gap(frames.len() == 0 || !frames.last().is_array || !frames.last().seen)
}

/// The open containers once a value has been started.
pub open spec fn value_opened(frames: Seq<Open>) -> Seq<Open> {
    if frames.len() > 0 && frames.last().is_array {
        frames.drop_last().push(Open { is_array: true, seen: true })
    } else {
        frames
    }
}

/// What precedes a key: a comma before every member but the first.
pub open spec fn key_gap(frames: Seq<Open>) -> Seq<u8> {
    gap(frames.len() == 0 || !frames.last().seen)
}

/// The open containers once a key has been started.
pub open spec fn key_opened(frames: Seq<Open>) -> Seq<Open> {
    if frames.len() > 0 {
        frames.drop_last().push(Open { seen: true, ..frames.last() })
    } else {
        frames
    }
}

/// The open containers once the innermost has been closed.
pub open spec fn closed(frames: Seq<Open>) -> Seq<Open> {
    if frames.len() > 0 {
        frames.drop_last()
    } else {
        frames
    }
}

/// What a node writes inside the open containers `frames`, and the containers open after it.
pub open spec fn step(n: Node, s: Seq<u8>, style: Style, frames: Seq<Open>) -> Option<
    (Seq<u8>, Seq<Open>),
> {
    match n.kind {
        NodeKind::Null | NodeKind::Bool(_) | NodeKind::Number => match span_text(s, n.span) {
            None => None,
            Some(l) => Some((value_gap(frames) + l, value_opened(frames))),
        },
        NodeKind::String => match span_text(s, n.span) {
            None => None,
            Some(l) => Some((value_gap(frames) + styled(l, style), value_opened(frames))),
        },
        NodeKind::Key => match span_text(s, n.span) {
            None => None,
            Some(l) => Some(
                (key_gap(frames) + styled(l, style) + seq![COLON], key_opened(frames)),
            ),
        },
        NodeKind::ObjectStart { .. } => Some(
            (
                value_gap(frames) + seq![LBRACE],
                value_opened(frames).push(Open { is_array: false, seen: false }),
            ),
        ),
        NodeKind::ObjectEnd => Some((seq![RBRACE], closed(frames))),
        NodeKind::ArrayStart { .. } => Some(
            (
                value_gap(frames) + seq![LBRACKET],
                value_opened(frames).push(Open { is_array: true, seen: false }),
            ),
        ),
        NodeKind::ArrayEnd => Some((seq![RBRACKET], closed(frames))),
    }
}

/// A text in front of what may follow.
pub open spec fn prefixed(text: Seq<u8>, rest: Option<Seq<u8>>) -> Option<Seq<u8>> {
    match rest {
        None => None,
        Some(t) => Some(text + t),
    }
}

/// What a run of nodes writes inside the open containers `frames`; `None` if a lexeme cannot
/// be cut out of the text.
pub open spec fn written(nodes: Seq<Node>, s: Seq<u8>, style: Style, frames: Seq<Open>) -> Option<
    Seq<u8>,
>
    decreases nodes.len(),
{
    if nodes.len() == 0 {
        Some(Seq::empty())
    } else {
        match step(nodes[0], s, style, frames) {
            None => None,
            Some((text, opened)) => prefixed(
                text,
                written(nodes.drop_first(), s, style, opened),
            ),
        }
    }
}

/// What is left behind of a node whose lexeme cannot be cut out of the text: the comma before
/// it.
pub open spec fn stub(n: Node, frames: Seq<Open>) -> Seq<u8> {
    if n.kind is Key {
        key_gap(frames)
    } else {
        value_gap(frames)
    }
}

/// What a run of nodes writes up to the first whose lexeme cannot be cut out of the text; all
/// of it, if there is none.
pub open spec fn written_part(nodes: Seq<Node>, s: Seq<u8>, style: Style, frames: Seq<Open>) -> Seq<
    u8,
>
    decreases nodes.len(),
{
    if nodes.len() == 0 {
        Seq::empty()
    } else {
        match step(nodes[0], s, style, frames) {
            None => stub(nodes[0], frames),
            Some((text, opened)) => text + written_part(nodes.drop_first(), s, style, opened),
        }
    }
}

/// Nodes that can all be written are written whole.
pub proof fn lemma_written_part(nodes: Seq<Node>, s: Seq<u8>, style: Style, frames: Seq<Open>)
    ensures
        written(nodes, s, style, frames) matches Some(text) ==> written_part(
            nodes,
            s,
            style,
            frames,
        ) == text,
    decreases nodes.len(),
{
    if nodes.len() > 0 {
        if let Some((text, opened)) = step(nodes[0], s, style, frames) {
            lemma_written_part(nodes.drop_first(), s, style, opened);
        }
    }
}

/// The minified document of a tree, if every lexeme can be cut out of the text.
pub open spec fn written_doc(tree: Tree, s: Seq<u8>, style: Style) -> Option<Seq<u8>> {
    if resolvable(tree, s) {
        Some(minified(doc(tree, s), style))
    } else {
        None
    }
}

pub proof fn lemma_prefixed(a: Seq<u8>, b: Seq<u8>, rest: Option<Seq<u8>>)
    ensures
        prefixed(a, prefixed(b, rest)) == prefixed(a + b, rest),
{
    if let Some(t) = rest {
        assert(a + (b + t) =~= a + b + t);
    }
}

/// The nodes of a tree write the comma that is due and the minified document.
#[verifier::rlimit(40)]
#[verifier::spinoff_prover]
pub proof fn lemma_written_tree(
    tree: Tree,
    depth: int,
    after: Seq<Node>,
    s: Seq<u8>,
    style: Style,
    frames: Seq<Open>,
)
    requires
        recordable(tree),
    ensures
        written(tree_nodes(tree, depth) + after, s, style, frames) == (if resolvable(tree, s) {
            prefixed(
                value_gap(frames) + minified(doc(tree, s), style),
                written(after, s, style, value_opened(frames)),
            )
        } else {
            None
        }),
    decreases tree,
{
    let nodes = tree_nodes(tree, depth);
    let all = nodes + after;
    let opened = value_opened(frames);
    match tree {
        Tree::Leaf { kind, place } => {
            assert(all.drop_first() =~= after);
        },
        Tree::Array { open, items, close } => {
            let end = node(NodeKind::ArrayEnd, close, close + 1, depth);
            let inner = opened.push(Open { is_array: true, seen: false });
            let rest = seq![end] + after;
            assert(all.drop_first() =~= item_nodes(items, depth + 1) + rest);
            lemma_written_items(items, depth + 1, rest, s, style, opened, false);
            let seen = opened.push(Open { is_array: true, seen: items.len() > 0 });
            assert(rest.drop_first() =~= after);
            assert(seen.drop_last() =~= opened);
            if items_resolvable(items, s) {
                let list = minified_items(item_docs(items, s), style, true);
                lemma_prefixed(list, seq![RBRACKET], written(after, s, style, opened));
                lemma_prefixed(
                    value_gap(frames) + seq![LBRACKET],
                    list + seq![RBRACKET],
                    written(after, s, style, opened),
                );
                assert(value_gap(frames) + seq![LBRACKET] + (list + seq![RBRACKET]) =~= value_gap(
                    frames,
                ) + (seq![LBRACKET] + list + seq![RBRACKET]));
            }
        },
        Tree::Object { open, members, close } => {
            let end = node(NodeKind::ObjectEnd, close, close + 1, depth);
            let inner = opened.push(Open { is_array: false, seen: false });
            let rest = seq![end] + after;
            assert(all.drop_first() =~= member_nodes(members, depth + 1) + rest);
            lemma_written_members(members, depth + 1, rest, s, style, opened, false);
            let seen = opened.push(Open { is_array: false, seen: members.len() > 0 });
            assert(rest.drop_first() =~= after);
            assert(seen.drop_last() =~= opened);
            if members_resolvable(members, s) {
                let list = minified_members(member_docs(members, s), style, true);
                lemma_prefixed(list, seq![RBRACE], written(after, s, style, opened));
                lemma_prefixed(
                    value_gap(frames) + seq![LBRACE],
                    list + seq![RBRACE],
                    written(after, s, style, opened),
                );
                assert(value_gap(frames) + seq![LBRACE] + (list + seq![RBRACE]) =~= value_gap(
                    frames,
                ) + (seq![LBRACE] + list + seq![RBRACE]));
            }
        },
    }
}

/// The nodes of an array's remaining elements, `seen` telling whether some came before.
#[verifier::rlimit(40)]
#[verifier::spinoff_prover]
pub proof fn lemma_written_items(
    items: Seq<Tree>,
    depth: int,
    after: Seq<Node>,
    s: Seq<u8>,
    style: Style,
    outer: Seq<Open>,
    seen: bool,
)
    requires
        items_recordable(items),
    ensures
        written(
            item_nodes(items, depth) + after,
            s,
            style,
            outer.push(Open { is_array: true, seen }),
        ) == (if items_resolvable(items, s) {
            prefixed(
                minified_items(item_docs(items, s), style, !seen),
                written(
                    after,
                    s,
                    style,
                    outer.push(Open { is_array: true, seen: seen || items.len() > 0 }),
                ),
            )
        } else {
            None
        }),
    decreases items,
{
    let frames = outer.push(Open { is_array: true, seen });
    if items.len() == 0 {
        assert(item_nodes(items, depth) + after =~= after);
        if let Some(t) = written(after, s, style, frames) {
            assert(Seq::<u8>::empty() + t =~= t);
        }
    } else {
        let first = items[0];
        let others = items.drop_first();
        let rest = item_nodes(others, depth) + after;
        assert(item_nodes(items, depth) + after =~= tree_nodes(first, depth) + rest);
        lemma_written_tree(first, depth, rest, s, style, frames);
        let opened = outer.push(Open { is_array: true, seen: true });
        assert(value_opened(frames) =~= opened);
        lemma_written_items(others, depth, after, s, style, outer, true);
        if items_resolvable(items, s) {
            let docs = item_docs(items, s);
            assert(docs.drop_first() =~= item_docs(others, s));
            lemma_prefixed(
                value_gap(frames) + minified(doc(first, s), style),
                minified_items(item_docs(others, s), style, false),
                written(after, s, style, opened),
            );
        }
    }
}

/// The nodes of an object's remaining members, `seen` telling whether some came before.
#[verifier::rlimit(40)]
#[verifier::spinoff_prover]
pub proof fn lemma_written_members(
    members: Seq<(Place, Tree)>,
    depth: int,
    after: Seq<Node>,
    s: Seq<u8>,
    style: Style,
    outer: Seq<Open>,
    seen: bool,
)
    requires
        members_recordable(members),
    ensures
        written(
            member_nodes(members, depth) + after,
            s,
            style,
            outer.push(Open { is_array: false, seen }),
        ) == (if members_resolvable(members, s) {
            prefixed(
                minified_members(member_docs(members, s), style, !seen),
                written(
                    after,
                    s,
                    style,
                    outer.push(Open { is_array: false, seen: seen || members.len() > 0 }),
                ),
            )
        } else {
            None
        }),
    decreases members,
{
    let frames = outer.push(Open { is_array: false, seen });
    if members.len() == 0 {
        assert(member_nodes(members, depth) + after =~= after);
        if let Some(t) = written(after, s, style, frames) {
            assert(Seq::<u8>::empty() + t =~= t);
        }
    } else {
        let (place, first) = members[0];
        let others = members.drop_first();
        let rest = member_nodes(others, depth) + after;
        let all = member_nodes(members, depth) + after;
        assert(all.drop_first() =~= tree_nodes(first, depth) + rest);
        let opened = outer.push(Open { is_array: false, seen: true });
        assert(key_opened(frames) =~= opened);
        lemma_written_tree(first, depth, rest, s, style, opened);
        lemma_written_members(others, depth, after, s, style, outer, true);
        if members_resolvable(members, s) {
            let docs = member_docs(members, s);
            assert(docs.drop_first() =~= member_docs(others, s));
            let key = key_gap(frames) + styled(lexeme(s, place), style) + seq![COLON];
            let value = value_gap(opened) + minified(doc(first, s), style);
            assert(value =~= minified(doc(first, s), style));
            lemma_prefixed(
                value,
                minified_members(member_docs(others, s), style, false),
                written(after, s, style, opened),
            );
            lemma_prefixed(
                key,
                value + minified_members(member_docs(others, s), style, false),
                written(after, s, style, opened),
            );
            assert(key + (value + minified_members(member_docs(others, s), style, false)) =~= gap(
                !seen,
            ) + styled(lexeme(s, place), style) + seq![COLON] + minified(doc(first, s), style)
                + minified_members(member_docs(others, s), style, false));
        }
    }
}

/// The nodes of a tree, on their own, write the minified document.
pub proof fn lemma_written_whole(tree: Tree, depth: int, s: Seq<u8>, style: Style)
    requires
        recordable(tree),
    ensures
        written(tree_nodes(tree, depth), s, style, Seq::empty()) == written_doc(tree, s, style),
{
    lemma_written_tree(tree, depth, Seq::empty(), s, style, Seq::empty());
    assert(tree_nodes(tree, depth) + Seq::empty() =~= tree_nodes(tree, depth));
    if resolvable(tree, s) {
        let text = minified(doc(tree, s), style);
        assert(value_gap(Seq::empty()) + text + Seq::<u8>::empty() =~= text);
    }
}

/// Emit the comma that is due before a value.
pub fn open_value(frames: &mut Vec<Open>, out: &mut String)
    ensures
        final(frames)@ == value_opened(old(frames)@),
        encode_utf8(final(out)@) == encode_utf8(old(out)@) + value_gap(old(frames)@),
{
    let mut comma = false;
    if frames.len() > 0 {
        let last: usize = frames.len() - 1;
        let frame = frames[last];
        if frame.is_array {
            comma = frame.seen;
            frames.set(last, Open { is_array: true, seen: true });
        }
    }
    proof {
        assert(frames@ =~= value_opened(old(frames)@));
    }
    if comma {
        push_ascii(out, COMMA);
    } else {
        proof {
            assert(encode_utf8(out@) =~= encode_utf8(out@) + value_gap(old(frames)@));
        }
    }
}

/// Emit the comma that is due before an object key.
fn open_key(frames: &mut Vec<Open>, out: &mut String)
    ensures
        final(frames)@ == key_opened(old(frames)@),
        encode_utf8(final(out)@) == encode_utf8(old(out)@) + key_gap(old(frames)@),
{
    let mut comma = false;
    if frames.len() > 0 {
        let last: usize = frames.len() - 1;
        let frame = frames[last];
        comma = frame.seen;
        frames.set(last, Open { is_array: frame.is_array, seen: true });
    }
    proof {
        assert(frames@ =~= key_opened(old(frames)@));
    }
    if comma {
        push_ascii(out, COMMA);
    } else {
        proof {
            assert(encode_utf8(out@) =~= encode_utf8(out@) + key_gap(old(frames)@));
        }
    }
}

/// Resolve a span to its source slice, or `None` if it cannot be cut out of the input.
pub fn span_str(input: &str, span: Span) -> (part: Option<&str>)
    ensures
        match part {
            Some(t) => span_text(encode_utf8(input@), span) == Some(encode_utf8(t@)),
            None => span_text(encode_utf8(input@), span) is None,
        },
{
    slice_str(input, span.start as usize, span.end as usize)
}

/// Append a string lexeme in a style.
fn write_string(lexeme: &str, out: &mut String, style: Style)
    ensures
        encode_utf8(final(out)@) == encode_utf8(old(out)@) + styled(encode_utf8(lexeme@), style),
{
    match style {
        Style::Canonical => emit_string(lexeme, out),
        Style::Verbatim => push_str(out, lexeme),
    }
}

/// Write one node inside the open containers `frames`. Fails, having written no more than the
/// comma before the node, if the node's lexeme cannot be cut out of `input`.
pub fn write_node(
    n: Node,
    input: &str,
    out: &mut String,
    frames: &mut Vec<Open>,
    style: Style,
) -> (done: bool)
    ensures
        match step(n, encode_utf8(input@), style, old(frames)@) {
            None => {
                &&& !done
                &&& encode_utf8(final(out)@) == encode_utf8(old(out)@) + stub(n, old(frames)@)
                &&& final(frames)@ == (if n.kind is Key {
                    key_opened(old(frames)@)
                } else {
                    value_opened(old(frames)@)
                })
            },
            Some((text, opened)) => {
                &&& done
                &&& encode_utf8(final(out)@) == encode_utf8(old(out)@) + text
                &&& final(frames)@ == opened
            },
        },
{
    let ghost s = encode_utf8(input@);
    let ghost frames0 = frames@;
    let ghost out0 = encode_utf8(out@);
    match n.kind {
        NodeKind::Null | NodeKind::Bool(_) | NodeKind::Number => {
            open_value(frames, out);
            match span_str(input, n.span) {
                None => false,
                Some(l) => {
                    push_str(out, l);
                    proof {
                        assert(encode_utf8(out@) =~= out0 + (value_gap(frames0) + encode_utf8(l@)));
                    }
                    true
                },
            }
        },
        NodeKind::String => {
            open_value(frames, out);
            match span_str(input, n.span) {
                None => false,
                Some(l) => {
                    write_string(l, out, style);
                    proof {
                        assert(encode_utf8(out@) =~= out0 + (value_gap(frames0) + styled(
                            encode_utf8(l@),
                            style,
                        )));
                    }
                    true
                },
            }
        },
        NodeKind::Key => {
            open_key(frames, out);
            match span_str(input, n.span) {
                None => false,
                Some(l) => {
                    write_string(l, out, style);
                    push_ascii(out, COLON);
                    proof {
                        assert(encode_utf8(out@) =~= out0 + (key_gap(frames0) + styled(
                            encode_utf8(l@),
                            style,
                        ) + seq![COLON]));
                    }
                    true
                },
            }
        },
        NodeKind::ObjectStart { .. } => {
            open_value(frames, out);
            push_ascii(out, LBRACE);
            frames.push(Open { is_array: false, seen: false });
            proof {
                assert(encode_utf8(out@) =~= out0 + (value_gap(frames0) + seq![LBRACE]));
            }
            true
        },
        NodeKind::ObjectEnd => {
            push_ascii(out, RBRACE);
            let _ = frames.pop();
            true
        },
        NodeKind::ArrayStart { .. } => {
            open_value(frames, out);
            push_ascii(out, LBRACKET);
            frames.push(Open { is_array: true, seen: false });
            proof {
                assert(encode_utf8(out@) =~= out0 + (value_gap(frames0) + seq![LBRACKET]));
            }
            true
        },
        NodeKind::ArrayEnd => {
            push_ascii(out, RBRACKET);
            let _ = frames.pop();
            true
        },
    }
}

/// Write a run of nodes as minified JSON, starting outside any container. Fails if a lexeme
/// cannot be cut out of `input`; what comes before it has then been written.
pub fn write_nodes(nodes: &[Node], input: &str, out: &mut String, style: Style) -> (done: bool)
    ensures
        done == (written(nodes@, encode_utf8(input@), style, Seq::empty()) is Some),
        encode_utf8(final(out)@) == encode_utf8(old(out)@) + written_part(
            nodes@,
            encode_utf8(input@),
            style,
            Seq::empty(),
        ),
{
    let ghost s = encode_utf8(input@);
    let ghost all = nodes@;
    let ghost out0 = encode_utf8(out@);
    let ghost wanted = prefixed(out0, written(all, s, style, Seq::empty()));
    let mut frames: Vec<Open> = Vec::new();
    let mut i: usize = 0;
    proof {
        assert(all.skip(0) =~= all);
        assert(frames@ =~= Seq::empty());
    }
    while i < nodes.len()
        invariant
            all == nodes@,
            s == encode_utf8(input@),
            out0 == encode_utf8(old(out)@),
            wanted == prefixed(out0, written(all, s, style, Seq::empty())),
            i <= all.len(),
            prefixed(encode_utf8(out@), written(all.skip(i as int), s, style, frames@)) == wanted,
            encode_utf8(out@) + written_part(all.skip(i as int), s, style, frames@) == out0
                + written_part(all, s, style, Seq::empty()),
        decreases all.len() - i,
    {
        let ghost out1 = encode_utf8(out@);
        let ghost frames1 = frames@;
        proof {
            assert(all.skip(i as int)[0] == all[i as int]);
            assert(all.skip(i as int).drop_first() =~= all.skip(i + 1));
        }
        if !write_node(nodes[i], input, out, &mut frames, style) {
            return false;
        }
        proof {
            let (text, opened) = step(all[i as int], s, style, frames1)->0;
            lemma_prefixed(out1, text, written(all.skip(i + 1), s, style, opened));
            let rest = written_part(all.skip(i + 1), s, style, opened);
            assert(out1 + text + rest =~= out1 + (text + rest));
        }
        i = i + 1;
    }
    proof {
        assert(all.skip(i as int) =~= Seq::empty());
        assert(encode_utf8(out@) + Seq::<u8>::empty() =~= encode_utf8(out@));
    }
    true
}

} // verus!
