//! JSON documents without their layout: what a text holds once whitespace is forgotten.
//!
//! A [`Json`] keeps every lexeme, the order of members and elements, and duplicate keys. Two
//! documents mean the same when they differ at most in how their strings are spelled
//! ([`meaning`]): numbers are compared lexeme for lexeme.

use crate::ascii::{COLON, COMMA, LBRACE, LBRACKET, RBRACE, RBRACKET};
use crate::grammar::{Place, Tree};
use crate::never_compress::protected;
use crate::strings::{canonical, string_value, StringValue};
use crate::tape::NodeKind;
use crate::text::sliceable;
use vstd::prelude::*;

verus! {

/// A document as its lexemes.
#[verifier::ext_equal]
pub enum Json {
    /// `null`, `true`, `false` or a number: its lexeme.
    Scalar(Seq<u8>),
    /// A string: its lexeme, quotes included.
    String(Seq<u8>),
    /// An array: its elements in order.
    Array(Seq<Json>),
    /// An object: its members in order, each a key lexeme and a value.
    Object(Seq<(Seq<u8>, Json)>),
}

/// What a document says.
#[verifier::ext_equal]
pub enum Value {
    /// A literal or a number, by its lexeme.
    Scalar(Seq<u8>),
    /// A string, by what it says.
    String(StringValue),
    /// An array.
    Array(Seq<Value>),
    /// An object, with its members in order.
    Object(Seq<(StringValue, Value)>),
}

// ---------------------------------------------------------------------------
// The document of a tree
// ---------------------------------------------------------------------------

/// The lexeme at a place of the text `s`.
pub open spec fn lexeme(s: Seq<u8>, place: Place) -> Seq<u8> {
    s.subrange(place.start, place.end)
}

/// The document that a tree describes in the text `s`.
pub open spec fn doc(tree: Tree, s: Seq<u8>) -> Json
    decreases tree,
{
    match tree {
        Tree::Leaf { kind, place } => if kind is String {
            Json::String(lexeme(s, place))
        } else {
            Json::Scalar(lexeme(s, place))
        },
        Tree::Array { open, items, close } => Json::Array(item_docs(items, s)),
        Tree::Object { open, members, close } => Json::Object(member_docs(members, s)),
    }
}

pub open spec fn item_docs(items: Seq<Tree>, s: Seq<u8>) -> Seq<Json>
    decreases items,
{
    if items.len() == 0 {
        Seq::empty()
    } else {
        seq![doc(items[0], s)] + item_docs(items.drop_first(), s)
    }
}

pub open spec fn member_docs(members: Seq<(Place, Tree)>, s: Seq<u8>) -> Seq<(Seq<u8>, Json)>
    decreases members,
{
    if members.len() == 0 {
        Seq::empty()
    } else {
        seq![(lexeme(s, members[0].0), doc(members[0].1, s))] + member_docs(
            members.drop_first(),
            s,
        )
    }
}

pub proof fn lemma_item_docs(items: Seq<Tree>, s: Seq<u8>)
    ensures
        item_docs(items, s).len() == items.len(),
        forall|k: int| 0 <= k < items.len() ==> #[trigger] item_docs(items, s)[k] == doc(items[k], s),
    decreases items.len(),
{
    if items.len() > 0 {
        lemma_item_docs(items.drop_first(), s);
        assert forall|k: int| 0 <= k < items.len() implies #[trigger] item_docs(items, s)[k] == doc(
            items[k],
            s,
        ) by {
            if k > 0 {
                assert(items[k] == items.drop_first()[k - 1]);
                assert(item_docs(items, s)[k] == item_docs(items.drop_first(), s)[k - 1]);
            }
        }
    }
}

pub proof fn lemma_member_docs(members: Seq<(Place, Tree)>, s: Seq<u8>)
    ensures
        member_docs(members, s).len() == members.len(),
        forall|k: int|
            0 <= k < members.len() ==> #[trigger] member_docs(members, s)[k] == (
                lexeme(s, members[k].0),
                doc(members[k].1, s),
            ),
    decreases members.len(),
{
    if members.len() > 0 {
        lemma_member_docs(members.drop_first(), s);
        assert forall|k: int| 0 <= k < members.len() implies #[trigger] member_docs(members, s)[k]
            == (lexeme(s, members[k].0), doc(members[k].1, s)) by {
            if k > 0 {
                assert(members[k] == members.drop_first()[k - 1]);
                assert(member_docs(members, s)[k] == member_docs(members.drop_first(), s)[k - 1]);
            }
        }
    }
}

/// Whether every lexeme of a tree can be cut out of the text `s`.
pub open spec fn resolvable(tree: Tree, s: Seq<u8>) -> bool
    decreases tree,
{
    match tree {
        Tree::Leaf { kind, place } => sliceable(s, place.start, place.end),
        Tree::Array { open, items, close } => items_resolvable(items, s),
        Tree::Object { open, members, close } => members_resolvable(members, s),
    }
}

pub open spec fn items_resolvable(items: Seq<Tree>, s: Seq<u8>) -> bool
    decreases items,
{
    items.len() == 0 || (resolvable(items[0], s) && items_resolvable(items.drop_first(), s))
}

pub open spec fn members_resolvable(members: Seq<(Place, Tree)>, s: Seq<u8>) -> bool
    decreases members,
{
    members.len() == 0 || (sliceable(s, members[0].0.start, members[0].0.end) && resolvable(
        members[0].1,
        s,
    ) && members_resolvable(members.drop_first(), s))
}

/// Whether the numbers in a tree fit the fields of a tape node, and its leaves are leaves.
pub open spec fn recordable(tree: Tree) -> bool
    decreases tree,
{
    match tree {
        Tree::Leaf { kind, place } => recordable_place(place) && is_leaf(kind),
        Tree::Array { open, items, close } => items.len() <= u32::MAX && items_recordable(items),
        Tree::Object { open, members, close } => members.len() <= u32::MAX && members_recordable(
            members,
        ),
    }
}

pub open spec fn is_leaf(kind: NodeKind) -> bool {
    match kind {
        NodeKind::Null | NodeKind::Bool(_) | NodeKind::Number | NodeKind::String => true,
        _ => false,
    }
}

pub open spec fn recordable_place(place: Place) -> bool {
    0 <= place.start <= u32::MAX && 0 <= place.end <= u32::MAX
}

pub open spec fn items_recordable(items: Seq<Tree>) -> bool
    decreases items,
{
    items.len() == 0 || (recordable(items[0]) && items_recordable(items.drop_first()))
}

pub open spec fn members_recordable(members: Seq<(Place, Tree)>) -> bool
    decreases members,
{
    members.len() == 0 || (recordable_place(members[0].0) && recordable(members[0].1)
        && members_recordable(members.drop_first()))
}

// ---------------------------------------------------------------------------
// Minified text
// ---------------------------------------------------------------------------

/// How strings are written.
#[derive(Clone, Copy, PartialEq, Eq, Structural)]
pub enum Style {
    /// In canonical spelling, protected strings excepted.
    Canonical,
    /// As they stand.
    Verbatim,
}

/// A string lexeme as a style writes it.
pub open spec fn styled(lexeme: Seq<u8>, style: Style) -> Seq<u8> {
    match style {
        Style::Canonical => if protected(lexeme) {
            lexeme
        } else {
            canonical(lexeme)
        },
        Style::Verbatim => lexeme,
    }
}

/// A protected string is written as it stands, whatever the style.
pub proof fn law_protected_is_verbatim(lexeme: Seq<u8>, style: Style)
    requires
        protected(lexeme),
    ensures
        styled(lexeme, style) == lexeme,
{
}

/// A string that is not protected is written in canonical spelling, or as it stands where
/// every lexeme does.
pub proof fn law_unprotected_is_restyled(lexeme: Seq<u8>)
    ensures
        !protected(lexeme) ==> styled(lexeme, Style::Canonical) == canonical(lexeme),
        styled(lexeme, Style::Verbatim) == lexeme,
{
}

/// The comma that precedes every child but the first.
pub open spec fn gap(first: bool) -> Seq<u8> {
    if first {
        Seq::empty()
    } else {
        seq![COMMA]
    }
}

/// A document as JSON without insignificant whitespace.
pub open spec fn minified(j: Json, style: Style) -> Seq<u8>
    decreases j,
{
    match j {
        Json::Scalar(l) => l,
        Json::String(l) => styled(l, style),
        Json::Array(items) => seq![LBRACKET] + minified_items(items, style, true) + seq![RBRACKET],
        Json::Object(members) => seq![LBRACE] + minified_members(members, style, true) + seq![
            RBRACE,
        ],
    }
}

pub open spec fn minified_items(items: Seq<Json>, style: Style, first: bool) -> Seq<u8>
    decreases items,
{
    if items.len() == 0 {
        Seq::empty()
    } else {
        gap(first) + minified(items[0], style) + minified_items(items.drop_first(), style, false)
    }
}

pub open spec fn minified_members(
    members: Seq<(Seq<u8>, Json)>,
    style: Style,
    first: bool,
) -> Seq<u8>
    decreases members,
{
    if members.len() == 0 {
        Seq::empty()
    } else {
        gap(first) + styled(members[0].0, style) + seq![COLON] + minified(members[0].1, style)
            + minified_members(members.drop_first(), style, false)
    }
}

// ---------------------------------------------------------------------------
// Meaning
// ---------------------------------------------------------------------------

/// What a document says.
pub open spec fn meaning(j: Json) -> Value
    decreases j,
{
    match j {
        Json::Scalar(l) => Value::Scalar(l),
        Json::String(l) => Value::String(string_value(l)),
        Json::Array(items) => Value::Array(item_meanings(items)),
        Json::Object(members) => Value::Object(member_meanings(members)),
    }
}

pub open spec fn item_meanings(items: Seq<Json>) -> Seq<Value>
    decreases items,
{
    if items.len() == 0 {
        Seq::empty()
    } else {
        seq![meaning(items[0])] + item_meanings(items.drop_first())
    }
}

pub open spec fn member_meanings(members: Seq<(Seq<u8>, Json)>) -> Seq<(StringValue, Value)>
    decreases members,
{
    if members.len() == 0 {
        Seq::empty()
    } else {
        seq![(string_value(members[0].0), meaning(members[0].1))] + member_meanings(
            members.drop_first(),
        )
    }
}

/// A document with its strings written in a style.
pub open spec fn restyled(j: Json, style: Style) -> Json
    decreases j,
{
    match j {
        Json::Scalar(l) => Json::Scalar(l),
        Json::String(l) => Json::String(styled(l, style)),
        Json::Array(items) => Json::Array(restyled_items(items, style)),
        Json::Object(members) => Json::Object(restyled_members(members, style)),
    }
}

pub open spec fn restyled_items(items: Seq<Json>, style: Style) -> Seq<Json>
    decreases items,
{
    if items.len() == 0 {
        Seq::empty()
    } else {
        seq![restyled(items[0], style)] + restyled_items(items.drop_first(), style)
    }
}

pub open spec fn restyled_members(members: Seq<(Seq<u8>, Json)>, style: Style) -> Seq<
    (Seq<u8>, Json),
>
    decreases members,
{
    if members.len() == 0 {
        Seq::empty()
    } else {
        seq![(styled(members[0].0, style), restyled(members[0].1, style))] + restyled_members(
            members.drop_first(),
            style,
        )
    }
}

/// What a document means has its shape: as many elements and members, in the same order, each
/// meaning what the document's does, and every literal and number as it is.
pub proof fn law_meaning_keeps_shape(j: Json)
    ensures
        match j {
            Json::Scalar(l) => meaning(j) == Value::Scalar(l),
            Json::String(l) => meaning(j) == Value::String(string_value(l)),
            Json::Array(items) => meaning(j) matches Value::Array(values) && values.len()
                == items.len() && (forall|k: int|
                0 <= k < items.len() ==> #[trigger] values[k] == meaning(items[k])),
            Json::Object(members) => meaning(j) matches Value::Object(values) && values.len()
                == members.len() && (forall|k: int|
                0 <= k < members.len() ==> #[trigger] values[k] == (
                    string_value(members[k].0),
                    meaning(members[k].1),
                )),
        },
{
    match j {
        Json::Array(items) => {
            lemma_item_meanings(items);
        },
        Json::Object(members) => {
            lemma_member_meanings(members);
        },
        _ => {},
    }
}

proof fn lemma_item_meanings(items: Seq<Json>)
    ensures
        item_meanings(items).len() == items.len(),
        forall|k: int| 0 <= k < items.len() ==> #[trigger] item_meanings(items)[k] == meaning(items[k]),
    decreases items.len(),
{
    if items.len() > 0 {
        let others = items.drop_first();
        lemma_item_meanings(others);
        assert forall|k: int| 0 <= k < items.len() implies #[trigger] item_meanings(items)[k]
            == meaning(items[k]) by {
            if k > 0 {
                assert(item_meanings(items)[k] == item_meanings(others)[k - 1]);
            }
        }
    }
}

proof fn lemma_member_meanings(members: Seq<(Seq<u8>, Json)>)
    ensures
        member_meanings(members).len() == members.len(),
        forall|k: int|
            0 <= k < members.len() ==> #[trigger] member_meanings(members)[k] == (
                string_value(members[k].0),
                meaning(members[k].1),
            ),
    decreases members.len(),
{
    if members.len() > 0 {
        let others = members.drop_first();
        lemma_member_meanings(others);
        assert forall|k: int| 0 <= k < members.len() implies #[trigger] member_meanings(members)[k]
            == (string_value(members[k].0), meaning(members[k].1)) by {
            if k > 0 {
                assert(member_meanings(members)[k] == member_meanings(others)[k - 1]);
            }
        }
    }
}

} // verus!
