//! Lexeme-preserving pull parser producing a flat [`Tape`].
//!
//! The parser keeps object key order, duplicate keys, array order and every number lexeme
//! exactly as written: it never interprets a scalar, it only records where each one stands.
//! It is iterative: nesting is tracked on an explicit stack, so input of any depth ends in
//! [`CompressError::DepthExceeded`] and never in a stack overflow.
//!
//! What it computes is stated against the recursive grammar of [`crate::grammar`]: on every
//! text the tape is [`tree_nodes`] of the tree that [`document`] reads there, and every
//! refusal is the fault that [`document`] meets.

use crate::ascii::{
    BACKSLASH, COLON, COMMA, CR, DOT, LBRACE, LBRACKET, LF, LOWER_A, LOWER_B, LOWER_E, LOWER_F,
    LOWER_L, LOWER_N, LOWER_R, LOWER_S, LOWER_T, LOWER_U, MINUS, NINE, PLUS, QUOTE, RBRACE,
    RBRACKET, SLASH, SPACE, TAB, UPPER_A, UPPER_E, UPPER_F, ZERO,
};
use crate::error::CompressError;
use crate::json::recordable;
use crate::grammar::{
    document, hex_digits, holds_at, is_hex, number, only_space, skip_digits, skip_space,
    string_rest, Fault, Place, Tree,
};
use vstd::prelude::*;
use vstd::utf8::encode_utf8;

verus! {

/// Zero-copy span into the input, as `[start, end)` byte offsets.
#[derive(Copy, Clone, Debug, PartialEq, Eq, Structural)]
pub struct Span {
    /// Inclusive start byte offset.
    pub start: u32,
    /// Exclusive end byte offset.
    pub end: u32,
}

/// The kind of a tape node.
///
/// Container boundaries are explicit, so the tape can be walked without recursion. The
/// `Start` variants carry the exact child count.
#[derive(Copy, Clone, Debug, PartialEq, Eq, Structural)]
#[non_exhaustive]
pub enum NodeKind {
    /// The literal `null`.
    Null,
    /// A `true` or `false` literal.
    Bool(bool),
    /// A number, kept as its lexeme.
    Number,
    /// A string, kept as its lexeme, quotes included; escapes are not interpreted.
    String,
    /// The start of an object.
    ObjectStart {
        /// Number of members in the object.
        members: u32,
    },
    /// The end of an object.
    ObjectEnd,
    /// The start of an array.
    ArrayStart {
        /// Number of elements in the array.
        elements: u32,
    },
    /// The end of an array.
    ArrayEnd,
    /// An object key. Always immediately precedes its value.
    Key,
}

/// A single tape node: what it is, where it stands, and how deep it sits.
#[derive(Copy, Clone, Debug, PartialEq, Eq, Structural)]
pub struct Node {
    /// What the node represents.
    pub kind: NodeKind,
    /// The node's byte span into the input.
    pub span: Span,
    /// Number of enclosing containers, at most `u16::MAX`. The top-level value is at `0`.
    pub depth: u16,
}

/// Flat tape of nodes in source order.
#[derive(Debug)]
pub struct Tape {
    nodes: Vec<Node>,
}

impl View for Tape {
    type V = Seq<Node>;

    closed spec fn view(&self) -> Seq<Node> {
        self.nodes@
    }
}

impl Default for Tape {
    fn default() -> (tape: Self)
        ensures
            tape@ == Seq::<Node>::empty(),
    {
        Tape { nodes: Vec::new() }
    }
}

impl Tape {
    /// A tape is empty or holds the nodes of one tree.
    #[verifier::type_invariant]
    spec fn well_formed(self) -> bool {
        is_tape(self.nodes@)
    }

    /// The nodes in source order.
    pub fn nodes(&self) -> (nodes: &[Node])
        ensures
            nodes@ == self@,
            is_tape(self@),
    {
        proof {
            use_type_invariant(self);
        }
        self.nodes.as_slice()
    }

    /// Whether the tape holds no nodes.
    pub fn is_empty(&self) -> (empty: bool)
        ensures
            empty == (self@.len() == 0),
    {
        self.nodes.len() == 0
    }

    /// The number of nodes on the tape.
    pub fn len(&self) -> (len: usize)
        ensures
            len == self@.len(),
    {
        self.nodes.len()
    }
}

// ---------------------------------------------------------------------------
// The tape of a tree
// ---------------------------------------------------------------------------

/// Whether nodes are none, or those of a tree whose numbers fit a node's fields.
pub open spec fn is_tape(nodes: Seq<Node>) -> bool {
    nodes.len() == 0 || exists|tree: Tree|
        recordable(tree) && nodes == #[trigger] tree_nodes(tree, 0)
}

/// A depth as a node records it.
pub open spec fn recorded_depth(depth: int) -> u16 {
    if depth <= u16::MAX {
        depth as u16
    } else {
        u16::MAX
    }
}

pub open spec fn node(kind: NodeKind, start: int, end: int, depth: int) -> Node {
    Node {
        kind,
        span: Span { start: start as u32, end: end as u32 },
        depth: recorded_depth(depth),
    }
}

/// The nodes of a tree inside `depth` containers: a leaf is one node; a container is a
/// `Start` node with the number of its children, the children one level deeper, and an `End`
/// node.
pub open spec fn tree_nodes(tree: Tree, depth: int) -> Seq<Node>
    decreases tree,
{
    match tree {
        Tree::Leaf { kind, place } => seq![node(kind, place.start, place.end, depth)],
        Tree::Array { open, items, close } => seq![
            node(NodeKind::ArrayStart { elements: items.len() as u32 }, open, open + 1, depth),
        ] + item_nodes(items, depth + 1) + seq![
            node(NodeKind::ArrayEnd, close, close + 1, depth),
        ],
        Tree::Object { open, members, close } => seq![
            node(NodeKind::ObjectStart { members: members.len() as u32 }, open, open + 1, depth),
        ] + member_nodes(members, depth + 1) + seq![
            node(NodeKind::ObjectEnd, close, close + 1, depth),
        ],
    }
}

/// The nodes of an array's elements.
pub open spec fn item_nodes(items: Seq<Tree>, depth: int) -> Seq<Node>
    decreases items,
{
    if items.len() == 0 {
        Seq::empty()
    } else {
        tree_nodes(items[0], depth) + item_nodes(items.drop_first(), depth)
    }
}

/// The nodes of an object's members: each key, then its value.
pub open spec fn member_nodes(members: Seq<(Place, Tree)>, depth: int) -> Seq<Node>
    decreases members,
{
    if members.len() == 0 {
        Seq::empty()
    } else {
        seq![node(NodeKind::Key, members[0].0.start, members[0].0.end, depth)] + tree_nodes(
            members[0].1,
            depth,
        ) + member_nodes(members.drop_first(), depth)
    }
}

/// Whether `fault` is a violation of the grammar that `error` reports.
pub open spec fn reports_syntax(error: CompressError, fault: Fault) -> bool {
    fault matches Fault::Syntax { at, msg } && error matches CompressError::InvalidJson {
        byte_offset,
        msg: text,
    } && byte_offset == at && text@ == msg
}

/// Whether `error` reports `fault`, met under the nesting limit `limit`.
pub open spec fn reports(error: CompressError, fault: Fault, limit: int) -> bool {
    match fault {
        Fault::Syntax { .. } => reports_syntax(error, fault),
        Fault::TooDeep { depth } => error matches CompressError::DepthExceeded {
            depth: reached,
            limit: allowed,
        } && reached == depth && allowed == limit,
    }
}

// ---------------------------------------------------------------------------
// The parser
// ---------------------------------------------------------------------------

/// Whether a frame is an object or an array.
#[derive(Copy, Clone, PartialEq, Eq, Structural)]
enum FrameKind {
    Object,
    Array,
}

/// One open container on the explicit parse stack.
#[derive(Copy, Clone)]
struct Frame {
    kind: FrameKind,
    /// Index of the `Start` node on the tape, patched with the final count.
    start_index: usize,
    /// Members or elements seen so far.
    count: u32,
}

/// What the state machine expects next.
#[derive(Copy, Clone)]
enum State {
    /// A value is mandatory here.
    Value,
    /// Just opened `[`: a value or `]`.
    ArrayFirst,
    /// After an array element: `,` or `]`.
    ArrayNext,
    /// Just opened `{`: a key or `}`.
    ObjectFirst,
    /// After `,` in an object: a key.
    ObjectKey,
    /// After a member: `,` or `}`.
    ObjectNext,
    /// The top-level value is complete.
    End,
}

spec fn start_kind(kind: FrameKind, count: int) -> NodeKind {
    match kind {
        FrameKind::Object => NodeKind::ObjectStart { members: count as u32 },
        FrameKind::Array => NodeKind::ArrayStart { elements: count as u32 },
    }
}

/// The tape once the container of `frame` is known to have `count` children.
spec fn patched(nodes: Seq<Node>, frame: Frame, count: int) -> Seq<Node> {
    let i = frame.start_index as int;
    nodes.update(i, Node { kind: start_kind(frame.kind, count), ..nodes[i] })
}

/// What a parse comes to that has `nodes` on the tape and has just completed a value inside
/// the open containers `stack`, at offset `i`.
spec fn after(s: Seq<u8>, limit: int, stack: Seq<Frame>, nodes: Seq<Node>, i: int) -> Result<
    Seq<Node>,
    Fault,
>
    decreases stack.len(), 1int,
{
    if stack.len() == 0 {
        match only_space(s, i) {
            Err(e) => Err(e),
            Ok(_) => Ok(nodes),
        }
    } else {
        match stack.last().kind {
            FrameKind::Array => after_items(
                s,
                limit,
                stack,
                nodes,
                crate::grammar::more_items(s, i, stack.len() as int, limit),
            ),
            FrameKind::Object => after_members(
                s,
                limit,
                stack,
                nodes,
                crate::grammar::more_members(s, i, stack.len() as int, limit),
            ),
        }
    }
}

/// What it comes to when the innermost container is an array whose remaining elements read
/// as `rest`.
spec fn after_items(
    s: Seq<u8>,
    limit: int,
    stack: Seq<Frame>,
    nodes: Seq<Node>,
    rest: Result<(Seq<Tree>, int), Fault>,
) -> Result<Seq<Node>, Fault>
    decreases stack.len(), 0int,
{
    match rest {
        Err(e) => Err(e),
        Ok((items, close)) => if stack.len() == 0 {
            arbitrary()
        } else {
            after(
                s,
                limit,
                stack.drop_last(),
                patched(nodes, stack.last(), stack.last().count + items.len()) + item_nodes(
                    items,
                    stack.len() as int,
                ) + seq![node(NodeKind::ArrayEnd, close, close + 1, stack.len() - 1)],
                close + 1,
            )
        },
    }
}

/// What it comes to when the innermost container is an object whose remaining members read
/// as `rest`.
spec fn after_members(
    s: Seq<u8>,
    limit: int,
    stack: Seq<Frame>,
    nodes: Seq<Node>,
    rest: Result<(Seq<(Place, Tree)>, int), Fault>,
) -> Result<Seq<Node>, Fault>
    decreases stack.len(), 0int,
{
    match rest {
        Err(e) => Err(e),
        Ok((members, close)) => if stack.len() == 0 {
            arbitrary()
        } else {
            after(
                s,
                limit,
                stack.drop_last(),
                patched(nodes, stack.last(), stack.last().count + members.len()) + member_nodes(
                    members,
                    stack.len() as int,
                ) + seq![node(NodeKind::ObjectEnd, close, close + 1, stack.len() - 1)],
                close + 1,
            )
        },
    }
}

/// What a parse comes to that is in `state` at offset `i`.
spec fn outcome(
    s: Seq<u8>,
    limit: int,
    state: State,
    stack: Seq<Frame>,
    nodes: Seq<Node>,
    i: int,
) -> Result<Seq<Node>, Fault> {
    let depth = stack.len() as int;
    match state {
        State::Value => match crate::grammar::value(s, i, depth, limit) {
            Err(e) => Err(e),
            Ok((tree, j)) => after(s, limit, stack, nodes + tree_nodes(tree, depth), j),
        },
        State::ArrayFirst => after_items(
            s,
            limit,
            stack,
            nodes,
            crate::grammar::first_item(s, i, depth, limit),
        ),
        State::ObjectFirst => after_members(
            s,
            limit,
            stack,
            nodes,
            crate::grammar::first_member(s, i, depth, limit),
        ),
        State::ObjectKey => after_members(
            s,
            limit,
            stack,
            nodes,
            crate::grammar::next_member(s, i, depth, limit),
        ),
        State::ArrayNext | State::ObjectNext | State::End => after(s, limit, stack, nodes, i),
    }
}

/// The state a parse is in after a value, given the containers around it.
spec fn next_state(stack: Seq<Frame>) -> State {
    if stack.len() == 0 {
        State::End
    } else {
        match stack.last().kind {
            FrameKind::Array => State::ArrayNext,
            FrameKind::Object => State::ObjectNext,
        }
    }
}

/// Whether the innermost container fits the state.
spec fn fits(state: State, stack: Seq<Frame>) -> bool {
    match state {
        State::Value => true,
        State::ArrayFirst => stack.len() > 0 && stack.last().kind is Array && stack.last().count == 0,
        State::ObjectFirst | State::ObjectKey => stack.len() > 0 && stack.last().kind is Object,
        State::ArrayNext | State::ObjectNext | State::End => state == next_state(stack),
    }
}

/// Every open container has its `Start` node on the tape and no more children than bytes
/// read.
spec fn grounded(stack: Seq<Frame>, nodes: Seq<Node>, pos: int) -> bool {
    &&& stack.len() <= pos
    &&& forall|k: int|
        #![trigger stack[k]]
        0 <= k < stack.len() ==> stack[k].start_index < nodes.len() && stack[k].count <= pos
}

proof fn lemma_skip_space_again(s: Seq<u8>, i: int)
    requires
        0 <= i <= s.len(),
    ensures
        skip_space(s, skip_space(s, i)) == skip_space(s, i),
{
    crate::grammar::lemma_skip_space(s, i);
}

/// Leading whitespace changes nothing.
proof fn lemma_outcome_space(
    s: Seq<u8>,
    limit: int,
    state: State,
    stack: Seq<Frame>,
    nodes: Seq<Node>,
    i: int,
)
    requires
        0 <= i <= s.len(),
    ensures
        outcome(s, limit, state, stack, nodes, skip_space(s, i)) == outcome(
            s,
            limit,
            state,
            stack,
            nodes,
            i,
        ),
{
    crate::grammar::lemma_skip_space(s, i);
    lemma_skip_space_again(s, i);
}

proof fn lemma_item_nodes_first(first: Tree, rest: Seq<Tree>, depth: int)
    ensures
        item_nodes(seq![first] + rest, depth) == tree_nodes(first, depth) + item_nodes(rest, depth),
{
    assert((seq![first] + rest).drop_first() =~= rest);
}

proof fn lemma_member_nodes_first(
    first: (Place, Tree),
    rest: Seq<(Place, Tree)>,
    depth: int,
)
    ensures
        member_nodes(seq![first] + rest, depth) == seq![
            node(NodeKind::Key, first.0.start, first.0.end, depth),
        ] + tree_nodes(first.1, depth) + member_nodes(rest, depth),
{
    assert((seq![first] + rest).drop_first() =~= rest);
}

/// Opening a container turns the wait for a value into the wait for its contents.
proof fn lemma_open(
    s: Seq<u8>,
    limit: int,
    stack: Seq<Frame>,
    nodes: Seq<Node>,
    p: int,
    frame: Frame,
)
    requires
        0 <= p < s.len(),
        skip_space(s, p) == p,
        s[p] == (if frame.kind is Object {
            LBRACE
        } else {
            LBRACKET
        }),
        stack.len() + 1 <= limit,
        frame.start_index == nodes.len(),
        frame.count == 0,
    ensures
        outcome(s, limit, State::Value, stack, nodes, p) == outcome(
            s,
            limit,
            if frame.kind is Object {
                State::ObjectFirst
            } else {
                State::ArrayFirst
            },
            stack.push(frame),
            nodes.push(node(start_kind(frame.kind, 0), p, p + 1, stack.len() as int)),
            p + 1,
        ),
{
    let depth = stack.len() as int;
    let inner = stack.push(frame);
    let opened = nodes.push(node(start_kind(frame.kind, 0), p, p + 1, depth));
    assert(inner.drop_last() =~= stack);
    if frame.kind is Object {
        if let Ok((members, close)) = crate::grammar::first_member(s, p + 1, depth + 1, limit) {
            let tree = Tree::Object { open: p, members, close };
            assert(patched(opened, frame, frame.count + members.len()) + member_nodes(
                members,
                depth + 1,
            ) + seq![node(NodeKind::ObjectEnd, close, close + 1, depth)] =~= nodes + tree_nodes(
                tree,
                depth,
            ));
        }
    } else {
        if let Ok((items, close)) = crate::grammar::first_item(s, p + 1, depth + 1, limit) {
            let tree = Tree::Array { open: p, items, close };
            assert(patched(opened, frame, frame.count + items.len()) + item_nodes(items, depth + 1)
                + seq![node(NodeKind::ArrayEnd, close, close + 1, depth)] =~= nodes + tree_nodes(
                tree,
                depth,
            ));
        }
    }
}

/// Counting an element turns the wait for more elements into the wait for a value.
proof fn lemma_item(s: Seq<u8>, limit: int, stack: Seq<Frame>, nodes: Seq<Node>, i: int)
    requires
        0 <= i <= s.len(),
        stack.len() > 0,
        stack.last().kind is Array,
        stack.last().start_index < nodes.len(),
        stack.last().count < u32::MAX,
    ensures
        after_items(
            s,
            limit,
            stack,
            nodes,
            crate::grammar::items(s, i, stack.len() as int, limit),
        ) == outcome(s, limit, State::Value, counted(stack), nodes, i),
{
    let depth = stack.len() as int;
    let grown = counted(stack);
    crate::grammar::lemma_value(s, i, depth, limit);
    if let Ok((first, j)) = crate::grammar::value(s, i, depth, limit) {
        if let Ok((rest, close)) = crate::grammar::more_items(s, j, depth, limit) {
            lemma_item_nodes_first(first, rest, depth);
            assert(grown.drop_last() =~= stack.drop_last());
            let end = seq![node(NodeKind::ArrayEnd, close, close + 1, depth - 1)];
            assert(patched(
                nodes + tree_nodes(first, depth),
                grown.last(),
                grown.last().count + rest.len(),
            ) + item_nodes(rest, depth) + end =~= patched(
                nodes,
                stack.last(),
                stack.last().count + (seq![first] + rest).len(),
            ) + item_nodes(seq![first] + rest, depth) + end);
        }
    }
}

/// The stack with one more child counted in the innermost container.
spec fn counted(stack: Seq<Frame>) -> Seq<Frame> {
    stack.update(
        stack.len() - 1,
        Frame { count: (stack.last().count + 1) as u32, ..stack.last() },
    )
}

/// Reading a key turns the wait for a member into the wait for its value.
proof fn lemma_member(s: Seq<u8>, limit: int, stack: Seq<Frame>, nodes: Seq<Node>, p: int)
    requires
        0 <= p < s.len(),
        stack.len() > 0,
        stack.last().kind is Object,
        stack.last().start_index < nodes.len(),
        stack.last().count < u32::MAX,
    ensures
        ({
            let contents = crate::grammar::members(s, p, stack.len() as int, limit);
            let all = after_members(s, limit, stack, nodes, contents);
            match crate::grammar::key(s, p) {
                Err(e) => all == Err::<Seq<Node>, Fault>(e),
                Ok((place, v)) => all == outcome(
                    s,
                    limit,
                    State::Value,
                    counted(stack),
                    nodes.push(node(NodeKind::Key, place.start, place.end, stack.len() as int)),
                    v,
                ),
            }
        }),
{
    let depth = stack.len() as int;
    let grown = counted(stack);
    crate::grammar::lemma_key(s, p);
    if let Ok((place, v)) = crate::grammar::key(s, p) {
        let keyed = nodes.push(node(NodeKind::Key, place.start, place.end, depth));
        crate::grammar::lemma_value(s, v, depth, limit);
        if let Ok((first, j)) = crate::grammar::value(s, v, depth, limit) {
            if let Ok((rest, close)) = crate::grammar::more_members(s, j, depth, limit) {
                lemma_member_nodes_first((place, first), rest, depth);
                assert(grown.drop_last() =~= stack.drop_last());
                let end = seq![node(NodeKind::ObjectEnd, close, close + 1, depth - 1)];
                assert(patched(
                    keyed + tree_nodes(first, depth),
                    grown.last(),
                    grown.last().count + rest.len(),
                ) + member_nodes(rest, depth) + end =~= patched(
                    nodes,
                    stack.last(),
                    stack.last().count + (seq![(place, first)] + rest).len(),
                ) + member_nodes(seq![(place, first)] + rest, depth) + end);
            }
        }
    }
}

/// Closing a container is what `after_items` and `after_members` say of nothing more to read.
proof fn lemma_close(
    s: Seq<u8>,
    limit: int,
    stack: Seq<Frame>,
    nodes: Seq<Node>,
    p: int,
)
    requires
        stack.len() > 0,
    ensures
        ({
            let closed = patched(nodes, stack.last(), stack.last().count as int).push(
                node(
                    if stack.last().kind is Object {
                        NodeKind::ObjectEnd
                    } else {
                        NodeKind::ArrayEnd
                    },
                    p,
                    p + 1,
                    stack.len() - 1,
                ),
            );
            let rest = after(s, limit, stack.drop_last(), closed, p + 1);
            if stack.last().kind is Object {
                rest == after_members(s, limit, stack, nodes, Ok((Seq::empty(), p)))
            } else {
                rest == after_items(s, limit, stack, nodes, Ok((Seq::empty(), p)))
            }
        }),
{
    let top = patched(nodes, stack.last(), stack.last().count as int);
    assert(top + member_nodes(Seq::empty(), stack.len() as int) =~= top);
    assert(top + item_nodes(Seq::empty(), stack.len() as int) =~= top);
    assert(top + seq![node(NodeKind::ObjectEnd, p, p + 1, stack.len() - 1)] =~= top.push(
        node(NodeKind::ObjectEnd, p, p + 1, stack.len() - 1),
    ));
    assert(top + seq![node(NodeKind::ArrayEnd, p, p + 1, stack.len() - 1)] =~= top.push(
        node(NodeKind::ArrayEnd, p, p + 1, stack.len() - 1),
    ));
}

/// Whether `r` is what `wanted` says, with `limit` the nesting limit.
pub open spec fn tape_agrees(
    r: Result<Tape, CompressError>,
    wanted: Result<Tree, Fault>,
    limit: int,
) -> bool {
    match wanted {
        Ok(tree) => r matches Ok(tape) && tape@ == tree_nodes(tree, 0),
        Err(fault) => r matches Err(error) && reports(error, fault, limit),
    }
}

/// Parse UTF-8 JSON into a lexeme-preserving tape.
///
/// The tape is the one of the tree that [`document`] reads in the text; a text that is no
/// document, or that nests deeper than `max_depth`, is refused with the first fault. Spans
/// are `u32`, so a text that such offsets cannot address is refused for its size.
#[verifier::rlimit(60)]
pub fn parse(input: &str, max_depth: usize) -> (r: Result<Tape, CompressError>)
    ensures
        encode_utf8(input@).len() > u32::MAX ==> (r matches Err(CompressError::InputTooLarge {
            size,
            limit,
        }) && size == encode_utf8(input@).len() && limit == u32::MAX),
        encode_utf8(input@).len() <= u32::MAX ==> tape_agrees(
            r,
            document(encode_utf8(input@), max_depth as int),
            max_depth as int,
        ),
{
    let bytes = input.as_bytes();
    if bytes.len() > u32_max_as_usize() {
        return Err(CompressError::InputTooLarge { size: bytes.len(), limit: u32_max_as_usize() });
    }
    let mut nodes: Vec<Node> = Vec::new();
    let mut stack: Vec<Frame> = Vec::new();
    let mut pos: usize = 0;
    let mut state = State::Value;
    let ghost s = bytes@;
    let ghost limit = max_depth as int;
    let ghost wanted = outcome(s, limit, State::Value, Seq::empty(), Seq::empty(), 0);
    proof {
        if let Ok((tree, end)) = crate::grammar::value(s, 0, 0, limit) {
            assert(Seq::<Node>::empty() + tree_nodes(tree, 0) =~= tree_nodes(tree, 0));
        }
        assert(stack@ =~= Seq::empty());
        assert(nodes@ =~= Seq::empty());
    }
    loop
        invariant
            s == bytes@,
            s == encode_utf8(input@),
            s.len() <= u32::MAX,
            limit == max_depth,
            pos <= s.len(),
            fits(state, stack@),
            grounded(stack@, nodes@, pos as int),
            outcome(s, limit, state, stack@, nodes@, pos as int) == wanted,
            match document(s, limit) {
                Ok(tree) => wanted == Ok::<Seq<Node>, Fault>(tree_nodes(tree, 0)),
                Err(fault) => wanted == Err::<Seq<Node>, Fault>(fault),
            },
        decreases
                s.len() - pos,
                (match state {
                    State::ArrayFirst => 1int,
                    _ => 0int,
                }),
    {
        let ghost before = pos as int;
        proof {
            lemma_outcome_space(s, limit, state, stack@, nodes@, before);
            lemma_skip_space_again(s, before);
        }
        pos = skip_ws(bytes, pos);
        match state {
            State::End => {
                if pos < bytes.len() {
                    return Err(invalid(pos, "trailing data after top-level value"));
                }
                proof {
                    crate::documents::lemma_document_read(s, limit);
                }
                return Ok(Tape { nodes });
            },
            State::Value => {
                if pos >= bytes.len() {
                    return Err(invalid(pos, "unexpected end of input, expected a value"));
                }
                let b: u8 = bytes[pos];
                if b == LBRACE {
                    let ghost stack0 = stack@;
                    let ghost nodes0 = nodes@;
                    match open_container(&mut nodes, &mut stack, FrameKind::Object, pos, max_depth) {
                        Err(e) => return Err(e),
                        Ok(_) => {},
                    }
                    proof {
                        lemma_open(s, limit, stack0, nodes0, pos as int, stack@.last());
                    }
                    pos = pos + 1;
                    state = State::ObjectFirst;
                } else if b == LBRACKET {
                    let ghost stack0 = stack@;
                    let ghost nodes0 = nodes@;
                    match open_container(&mut nodes, &mut stack, FrameKind::Array, pos, max_depth) {
                        Err(e) => return Err(e),
                        Ok(_) => {},
                    }
                    proof {
                        lemma_open(s, limit, stack0, nodes0, pos as int, stack@.last());
                    }
                    pos = pos + 1;
                    state = State::ArrayFirst;
                } else {
                    let ghost nodes0 = nodes@;
                    proof {
                        crate::grammar::lemma_scalar(s, pos as int);
                    }
                    let (kind, end) = match scan_scalar(bytes, pos) {
                        Err(e) => return Err(e),
                        Ok(found) => found,
                    };
                    push(&mut nodes, kind, pos, end, stack.len());
                    proof {
                        assert(nodes@ =~= nodes0 + seq![
                            node(kind, pos as int, end as int, stack@.len() as int),
                        ]);
                    }
                    pos = end;
                    state = after_value(&stack);
                }
            },
            State::ArrayFirst => {
                if pos >= bytes.len() {
                    return Err(invalid(pos, "unexpected end of input, expected value or ']'"));
                }
                if bytes[pos] == RBRACKET {
                    proof {
                        lemma_close(s, limit, stack@, nodes@, pos as int);
                    }
                    close_container(&mut nodes, &mut stack, pos);
                    pos = pos + 1;
                    state = after_value(&stack);
                } else {
                    proof {
                        lemma_item(s, limit, stack@, nodes@, pos as int);
                    }
                    count_child(&mut stack);
                    state = State::Value;
                }
            },
            State::ArrayNext => {
                if pos >= bytes.len() {
                    return Err(invalid(pos, "unexpected end of input, expected ',' or ']'"));
                }
                let b: u8 = bytes[pos];
                if b == COMMA {
                    proof {
                        lemma_item(s, limit, stack@, nodes@, pos + 1);
                    }
                    pos = pos + 1;
                    count_child(&mut stack);
                    state = State::Value;
                } else if b == RBRACKET {
                    proof {
                        lemma_close(s, limit, stack@, nodes@, pos as int);
                    }
                    close_container(&mut nodes, &mut stack, pos);
                    pos = pos + 1;
                    state = after_value(&stack);
                } else {
                    return Err(invalid(pos, "expected ',' or ']' in array"));
                }
            },
            State::ObjectFirst => {
                if pos >= bytes.len() {
                    return Err(
                        invalid(pos, "unexpected end of input, expected string key or '}'"),
                    );
                }
                let b: u8 = bytes[pos];
                if b == RBRACE {
                    proof {
                        lemma_close(s, limit, stack@, nodes@, pos as int);
                    }
                    close_container(&mut nodes, &mut stack, pos);
                    pos = pos + 1;
                    state = after_value(&stack);
                } else if b == QUOTE {
                    proof {
                        lemma_member(s, limit, stack@, nodes@, pos as int);
                        crate::grammar::lemma_key(s, pos as int);
                    }
                    pos = match read_key(bytes, &mut nodes, &mut stack, pos) {
                        Err(e) => return Err(e),
                        Ok(next) => next,
                    };
                    state = State::Value;
                } else {
                    return Err(invalid(pos, "expected string key or '}'"));
                }
            },
            State::ObjectKey => {
                if pos >= bytes.len() {
                    return Err(invalid(pos, "unexpected end of input, expected string key"));
                }
                if bytes[pos] == QUOTE {
                    proof {
                        lemma_member(s, limit, stack@, nodes@, pos as int);
                        crate::grammar::lemma_key(s, pos as int);
                    }
                    pos = match read_key(bytes, &mut nodes, &mut stack, pos) {
                        Err(e) => return Err(e),
                        Ok(next) => next,
                    };
                    state = State::Value;
                } else {
                    return Err(invalid(pos, "expected string key after ','"));
                }
            },
            State::ObjectNext => {
                if pos >= bytes.len() {
                    return Err(invalid(pos, "unexpected end of input, expected ',' or '}'"));
                }
                let b: u8 = bytes[pos];
                if b == COMMA {
                    pos = pos + 1;
                    state = State::ObjectKey;
                } else if b == RBRACE {
                    proof {
                        lemma_close(s, limit, stack@, nodes@, pos as int);
                    }
                    close_container(&mut nodes, &mut stack, pos);
                    pos = pos + 1;
                    state = after_value(&stack);
                } else {
                    return Err(invalid(pos, "expected ',' or '}' in object"));
                }
            },
        }
    }
}

/// The state after a value completes, from the enclosing frame.
fn after_value(stack: &Vec<Frame>) -> (state: State)
    ensures
        state == next_state(stack@),
{
    if stack.len() == 0 {
        State::End
    } else {
        match stack[stack.len() - 1].kind {
            FrameKind::Array => State::ArrayNext,
            FrameKind::Object => State::ObjectNext,
        }
    }
}

/// Count one more child in the innermost container.
fn count_child(stack: &mut Vec<Frame>)
    requires
        old(stack)@.len() > 0,
        old(stack)@.last().count < u32::MAX,
    ensures
        final(stack)@ == counted(old(stack)@),
{
    let last: usize = stack.len() - 1;
    let frame = stack[last];
    stack.set(last, Frame { kind: frame.kind, start_index: frame.start_index, count: frame.count + 1 });
}

/// Emit a `Start` node and push its frame, enforcing the depth limit first. The count in the
/// node is a placeholder until [`close_container`].
fn open_container(
    nodes: &mut Vec<Node>,
    stack: &mut Vec<Frame>,
    kind: FrameKind,
    pos: usize,
    max_depth: usize,
) -> (r: Result<(), CompressError>)
    requires
        pos < u32::MAX,
        old(stack)@.len() <= pos,
    ensures
        match r {
            Err(e) => {
                &&& old(stack)@.len() + 1 > max_depth
                &&& reports(e, Fault::TooDeep { depth: 1 + old(stack)@.len() as int }, max_depth as int)
            },
            Ok(_) => {
                &&& old(stack)@.len() + 1 <= max_depth
                &&& final(nodes)@ == old(nodes)@.push(
                    node(start_kind(kind, 0), pos as int, pos + 1, old(stack)@.len() as int),
                )
                &&& final(stack)@ == old(stack)@.push(
                    (Frame { kind, start_index: old(nodes)@.len() as usize, count: 0 }),
                )
                &&& final(stack)@.last().start_index == old(nodes)@.len()
            },
        },
{
    let new_depth: usize = stack.len() + 1;
    if new_depth > max_depth {
        return Err(CompressError::DepthExceeded { depth: new_depth, limit: max_depth });
    }
    let start_index: usize = nodes.len();
    let start_kind = match kind {
        FrameKind::Object => NodeKind::ObjectStart { members: 0 },
        FrameKind::Array => NodeKind::ArrayStart { elements: 0 },
    };
    push(nodes, start_kind, pos, pos + 1, stack.len());
    stack.push(Frame { kind, start_index, count: 0 });
    Ok(())
}

/// Pop the innermost frame, patch the count into its `Start` node, and emit the `End` node.
fn close_container(nodes: &mut Vec<Node>, stack: &mut Vec<Frame>, pos: usize)
    requires
        pos < u32::MAX,
        old(stack)@.len() > 0,
        old(stack)@.last().start_index < old(nodes)@.len(),
    ensures
        final(stack)@ == old(stack)@.drop_last(),
        final(nodes)@ == patched(
            old(nodes)@,
            old(stack)@.last(),
            old(stack)@.last().count as int,
        ).push(
            node(
                if old(stack)@.last().kind is Object {
                    NodeKind::ObjectEnd
                } else {
                    NodeKind::ArrayEnd
                },
                pos as int,
                pos + 1,
                old(stack)@.len() - 1,
            ),
        ),
{
    let frame = match stack.pop() {
        Some(frame) => frame,
        None => return,
    };
    let opened = nodes[frame.start_index];
    let (start_kind, end_kind) = match frame.kind {
        FrameKind::Object => (
            NodeKind::ObjectStart { members: frame.count },
            NodeKind::ObjectEnd,
        ),
        FrameKind::Array => (
            NodeKind::ArrayStart { elements: frame.count },
            NodeKind::ArrayEnd,
        ),
    };
    nodes.set(
        frame.start_index,
        Node { kind: start_kind, span: opened.span, depth: opened.depth },
    );
    push(nodes, end_kind, pos, pos + 1, stack.len());
}

/// Scan a key, emit its node, count the member, and consume the colon that must follow.
/// Returns the offset past the colon.
fn read_key(bytes: &[u8], nodes: &mut Vec<Node>, stack: &mut Vec<Frame>, pos: usize) -> (r: Result<
    usize,
    CompressError,
>)
    requires
        pos < bytes@.len() <= u32::MAX,
        bytes@[pos as int] == QUOTE,
        old(stack)@.len() > 0,
        old(stack)@.last().count < u32::MAX,
    ensures
        match (crate::grammar::key(bytes@, pos as int)) {
            Err(fault) => r matches Err(e) && reports_syntax(e, fault),
            Ok((place, next)) => {
                &&& r == Ok::<usize, CompressError>(next as usize)
                &&& 0 <= next <= bytes@.len()
                &&& final(nodes)@ == old(nodes)@.push(
                    node(NodeKind::Key, place.start, place.end, old(stack)@.len() as int),
                )
                &&& final(stack)@ == counted(old(stack)@)
            },
        },
{
    proof {
        crate::grammar::lemma_key(bytes@, pos as int);
        crate::grammar::lemma_string_rest(bytes@, pos + 1);
    }
    let end: usize = match scan_string(bytes, pos) {
        Err(e) => return Err(e),
        Ok(end) => end,
    };
    push(nodes, NodeKind::Key, pos, end, stack.len());
    count_child(stack);
    let colon: usize = skip_ws(bytes, end);
    if colon >= bytes.len() {
        Err(invalid(colon, "unexpected end of input, expected ':'"))
    } else if bytes[colon] == COLON {
        Ok(colon + 1)
    } else {
        Err(invalid(colon, "expected ':' after object key"))
    }
}

/// Scan a literal, a number or a string: its kind and the offset just past it.
fn scan_scalar(bytes: &[u8], pos: usize) -> (r: Result<(NodeKind, usize), CompressError>)
    requires
        pos < bytes@.len() <= u32::MAX,
        bytes@[pos as int] != LBRACE,
        bytes@[pos as int] != LBRACKET,
    ensures
        match (crate::grammar::scalar(bytes@, pos as int)) {
            Err(fault) => r matches Err(e) && reports_syntax(e, fault),
            Ok(found) => r matches Ok((kind, end)) && found == crate::grammar::leaf(
                kind,
                pos as int,
                end as int,
            ),
        },
{
    proof {
        crate::grammar::lemma_scalar(bytes@, pos as int);
    }
    let b: u8 = bytes[pos];
    if b == QUOTE {
        match scan_string(bytes, pos) {
            Err(e) => Err(e),
            Ok(end) => Ok((NodeKind::String, end)),
        }
    } else if b == LOWER_N {
        if !lit_matches(bytes, pos, &[LOWER_N, LOWER_U, LOWER_L, LOWER_L]) {
            return Err(invalid(pos, "invalid literal, expected 'null'"));
        }
        Ok((NodeKind::Null, pos + 4))
    } else if b == LOWER_T {
        if !lit_matches(bytes, pos, &[LOWER_T, LOWER_R, LOWER_U, LOWER_E]) {
            return Err(invalid(pos, "invalid literal, expected 'true'"));
        }
        Ok((NodeKind::Bool(true), pos + 4))
    } else if b == LOWER_F {
        if !lit_matches(bytes, pos, &[LOWER_F, LOWER_A, LOWER_L, LOWER_S, LOWER_E]) {
            return Err(invalid(pos, "invalid literal, expected 'false'"));
        }
        Ok((NodeKind::Bool(false), pos + 5))
    } else if b == MINUS || (ZERO <= b && b <= NINE) {
        match scan_number(bytes, pos) {
            Err(e) => Err(e),
            Ok(end) => Ok((NodeKind::Number, end)),
        }
    } else {
        Err(invalid(pos, "expected a JSON value"))
    }
}

/// Scan a string starting at its opening quote. Returns the offset just past the closing
/// quote. Escapes are checked for shape but not interpreted.
fn scan_string(bytes: &[u8], start: usize) -> (r: Result<usize, CompressError>)
    requires
        start < bytes@.len() <= u32::MAX,
    ensures
        match string_rest(bytes@, start + 1) {
            Err(fault) => r matches Err(e) && reports_syntax(e, fault),
            Ok(end) => r == Ok::<usize, CompressError>(end as usize) && 0 <= end <= bytes@.len(),
        },
{
    let ghost s = bytes@;
    let mut i: usize = start + 1;
    loop
        invariant
            s == bytes@,
            i <= s.len() <= u32::MAX,
            string_rest(s, i as int) == string_rest(s, start + 1),
        decreases s.len() - i,
    {
        if i >= bytes.len() {
            return Err(invalid(i, "unterminated string"));
        }
        let c: u8 = bytes[i];
        if c == QUOTE {
            return Ok(i + 1);
        }
        proof {
            crate::grammar::lemma_string_char(s, i as int);
        }
        if c == BACKSLASH {
            if i + 1 >= bytes.len() {
                return Err(invalid(i + 1, "unterminated escape in string"));
            }
            let e: u8 = bytes[i + 1];
            if e == QUOTE || e == BACKSLASH || e == SLASH || e == LOWER_B || e == LOWER_F || e == LOWER_N || e
                == LOWER_R || e == LOWER_T {
                i = i + 2;
            } else if e == LOWER_U {
                i = match scan_hex4(bytes, i + 2) {
                    Err(e) => return Err(e),
                    Ok(next) => next,
                };
            } else {
                return Err(invalid(i + 1, "invalid escape character in string"));
            }
        } else if c <= 0x1F {
            return Err(invalid(i, "unescaped control character in string"));
        } else {
            i = i + 1;
        }
    }
}

/// Scan the four hexadecimal digits of a unicode escape. Returns the offset just past them.
fn scan_hex4(bytes: &[u8], start: usize) -> (r: Result<usize, CompressError>)
    requires
        start <= bytes@.len() <= u32::MAX,
    ensures
        match hex_digits(bytes@, start as int, 0) {
            Err(fault) => r matches Err(e) && reports_syntax(e, fault),
            Ok(end) => r == Ok::<usize, CompressError>(end as usize) && 0 <= end <= bytes@.len(),
        },
{
    let mut k: usize = 0;
    while k < 4
        invariant
            k <= 4,
            start + k <= bytes@.len() <= u32::MAX,
            hex_digits(bytes@, start as int, k as int) == hex_digits(bytes@, start as int, 0),
        decreases 4 - k,
    {
        if start + k >= bytes.len() {
            return Err(invalid(start + k, "unterminated unicode escape"));
        }
        if !is_hex_digit(bytes[start + k]) {
            return Err(invalid(start + k, "invalid hex digit in unicode escape"));
        }
        k = k + 1;
    }
    Ok(start + 4)
}

/// Whether a byte is a hexadecimal digit.
pub fn is_hex_digit(b: u8) -> (r: bool)
    ensures
        r == is_hex(b),
{
    (ZERO <= b && b <= NINE) || (UPPER_A <= b && b <= UPPER_F) || (LOWER_A <= b && b <= LOWER_F)
}

/// Advance past decimal digits.
fn scan_digits(bytes: &[u8], start: usize) -> (end: usize)
    requires
        start <= bytes@.len(),
    ensures
        end == skip_digits(bytes@, start as int),
        start <= end <= bytes@.len(),
{
    let mut i: usize = start;
    while i < bytes.len() && ZERO <= bytes[i] && bytes[i] <= NINE
        invariant
            start <= i <= bytes@.len(),
            skip_digits(bytes@, i as int) == skip_digits(bytes@, start as int),
        decreases bytes@.len() - i,
    {
        i = i + 1;
    }
    i
}

/// Scan a number starting at `-` or a digit. Returns the offset just past its last
/// character. Leading zeros are refused; the lexeme is never converted.
fn scan_number(bytes: &[u8], start: usize) -> (r: Result<usize, CompressError>)
    requires
        start < bytes@.len() <= u32::MAX,
    ensures
        match number(bytes@, start as int) {
            Err(fault) => r matches Err(e) && reports_syntax(e, fault),
            Ok(end) => r == Ok::<usize, CompressError>(end as usize) && 0 <= end <= bytes@.len(),
        },
{
    let mut i: usize = start;
    if bytes[i] == MINUS {
        i = i + 1;
    }
    if i < bytes.len() && bytes[i] == ZERO {
        if i + 1 < bytes.len() && ZERO <= bytes[i + 1] && bytes[i + 1] <= NINE {
            return Err(invalid(i, "leading zeros are not allowed in numbers"));
        }
        i = i + 1;
    } else if i < bytes.len() && ZERO <= bytes[i] && bytes[i] <= NINE {
        i = scan_digits(bytes, i + 1);
    } else {
        return Err(invalid(i, "invalid number: expected a digit"));
    }
    if i < bytes.len() && bytes[i] == DOT {
        let end: usize = scan_digits(bytes, i + 1);
        if end == i + 1 {
            return Err(invalid(end, "invalid number: expected a digit after '.'"));
        }
        i = end;
    }
    if i < bytes.len() && (bytes[i] == LOWER_E || bytes[i] == UPPER_E) {
        i = i + 1;
        if i < bytes.len() && (bytes[i] == PLUS || bytes[i] == MINUS) {
            i = i + 1;
        }
        let end: usize = scan_digits(bytes, i);
        if end == i {
            return Err(invalid(end, "invalid number: expected a digit in exponent"));
        }
        i = end;
    }
    Ok(i)
}

/// Advance past JSON's insignificant whitespace.
fn skip_ws(bytes: &[u8], start: usize) -> (end: usize)
    requires
        start <= bytes@.len(),
    ensures
        end == skip_space(bytes@, start as int),
        start <= end <= bytes@.len(),
{
    let mut i: usize = start;
    while i < bytes.len() && (bytes[i] == SPACE || bytes[i] == TAB || bytes[i] == LF || bytes[i]
        == CR)
        invariant
            start <= i <= bytes@.len(),
            skip_space(bytes@, i as int) == skip_space(bytes@, start as int),
        decreases bytes@.len() - i,
    {
        i = i + 1;
    }
    i
}

/// Whether `lit` occurs at `start` in `bytes`.
fn lit_matches(bytes: &[u8], start: usize, lit: &[u8]) -> (r: bool)
    requires
        start <= bytes@.len(),
    ensures
        r == holds_at(bytes@, start as int, lit@),
{
    if lit.len() > bytes.len() - start {
        return false;
    }
    let mut k: usize = 0;
    while k < lit.len()
        invariant
            k <= lit@.len(),
            start + lit@.len() <= bytes@.len() <= usize::MAX,
            forall|j: int| 0 <= j < k ==> bytes@[start + j] == lit@[j],
        decreases lit@.len() - k,
    {
        if bytes[start + k] != lit[k] {
            proof {
                assert(bytes@.subrange(start as int, start + lit@.len())[k as int] != lit@[k as int]);
            }
            return false;
        }
        k = k + 1;
    }
    proof {
        assert(bytes@.subrange(start as int, start + lit@.len()) =~= lit@);
    }
    true
}

/// Append a node with the given span and depth.
fn push(nodes: &mut Vec<Node>, kind: NodeKind, start: usize, end: usize, depth: usize)
    requires
        start <= u32::MAX,
        end <= u32::MAX,
    ensures
        final(nodes)@ == old(nodes)@.push(node(kind, start as int, end as int, depth as int)),
{
    nodes.push(
        Node { kind, span: Span { start: to_u32(start), end: to_u32(end) }, depth: to_u16(depth) },
    );
}

/// Narrow a byte offset to `u32`.
fn to_u32(x: usize) -> (r: u32)
    ensures
        r == (if x <= u32::MAX {
            x as u32
        } else {
            u32::MAX
        }),
{
    if x <= u32_max_as_usize() {
        x as u32
    } else {
        u32::MAX
    }
}

/// Narrow a depth to `u16`, saturating.
fn to_u16(x: usize) -> (r: u16)
    ensures
        r == recorded_depth(x as int),
{
    if x <= 0xFFFF {
        x as u16
    } else {
        u16::MAX
    }
}

/// `u32::MAX` as a `usize`.
pub fn u32_max_as_usize() -> (r: usize)
    ensures
        r == u32::MAX,
{
    u32::MAX as usize
}

/// Build a [`CompressError::InvalidJson`].
fn invalid(byte_offset: usize, msg: &str) -> (e: CompressError)
    ensures
        e matches CompressError::InvalidJson { byte_offset: at, msg: text } && at == byte_offset
            && text@ == msg@,
{
    CompressError::InvalidJson { byte_offset, msg: msg.to_owned() }
}

} // verus!
