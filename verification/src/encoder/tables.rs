//! Tables: what the tabular encoder makes of a document.
//!
//! An array of objects that share a key list becomes a table block. The shared keys are
//! written once, in a header; each element follows as a row. The rest of the document is
//! minified JSON. See [`tabular`] for the exact bytes.
//!
//! Which key list is shared is decided by digests: `digest` stands for the function from an
//! ordered key list to a number by which elements are sorted into shapes. A collision can
//! make two key lists count as one shape, which affects what is hoisted and nothing else:
//! whether a row is plain is decided by comparing its keys with the header's.

use crate::ascii::{COLON, HASH, LBRACE, LBRACKET, LF, PLUS, RBRACE, RBRACKET, STAR, TAB};
use crate::encoder::fx::fx_digest;
use crate::json::{gap, minified, Json, Style};
use crate::text::decimal;
use vstd::prelude::*;

verus! {

/// How often `c` occurs in `codes`.
pub open spec fn occurrences(codes: Seq<u64>, c: u64) -> nat
    decreases codes.len(),
{
    if codes.len() == 0 {
        0
    } else {
        occurrences(codes.drop_last(), c) + (if codes.last() == c {
            1nat
        } else {
            0nat
        })
    }
}

/// Whether the code at `k` occurs most often, and is the first to stand that does.
pub open spec fn is_leader(codes: Seq<u64>, k: int) -> bool {
    &&& 0 <= k < codes.len()
    &&& forall|i: int|
        0 <= i < codes.len() ==> occurrences(codes, #[trigger] codes[i]) <= occurrences(
            codes,
            codes[k],
        )
    &&& forall|i: int|
        0 <= i < k ==> occurrences(codes, #[trigger] codes[i]) < occurrences(codes, codes[k])
}

/// The position whose shape is hoisted: the leader, if its code occurs at least twice.
pub open spec fn hoisted(codes: Seq<u64>) -> Option<int> {
    if exists|k: int| is_leader(codes, k) && occurrences(codes, codes[k]) >= 2 {
        Some(choose|k: int| is_leader(codes, k))
    } else {
        None
    }
}

/// There is at most one leader.
pub proof fn lemma_leader_unique(codes: Seq<u64>, a: int, b: int)
    requires
        is_leader(codes, a),
        is_leader(codes, b),
    ensures
        a == b,
{
    assert(occurrences(codes, codes[a]) <= occurrences(codes, codes[b]));
    assert(occurrences(codes, codes[b]) <= occurrences(codes, codes[a]));
}

/// The ordered key list of an object.
pub open spec fn keys_of(members: Seq<(Seq<u8>, Json)>) -> Seq<Seq<u8>> {
    Seq::new(members.len(), |i: int| members[i].0)
}

/// The members of an object.
pub open spec fn members_of(j: Json) -> Seq<(Seq<u8>, Json)> {
    match j {
        Json::Object(members) => members,
        _ => Seq::empty(),
    }
}

/// What a hasher is fed for an ordered key list: each key whole, then a byte that no key
/// contains.
pub open spec fn key_feed(keys: Seq<Seq<u8>>) -> Seq<(bool, Seq<u8>)>
    decreases keys.len(),
{
    if keys.len() == 0 {
        Seq::empty()
    } else {
        key_feed(keys.drop_last()).push((true, keys.last())).push((false, seq![0xFFu8]))
    }
}

/// The digest by which key lists are sorted into shapes on this machine.
pub open spec fn shape_digest(keys: Seq<Seq<u8>>) -> u64 {
    fx_digest(usize::BITS as nat, key_feed(keys))
}

/// [`shape_digest`] as a function value.
pub open spec fn machine_digest() -> spec_fn(Seq<Seq<u8>>) -> u64 {
    |keys: Seq<Seq<u8>>| shape_digest(keys)
}

/// The digests of the elements' key lists.
pub open spec fn codes_of(items: Seq<Json>, digest: spec_fn(Seq<Seq<u8>>) -> u64) -> Seq<u64> {
    Seq::new(items.len(), |i: int| digest(keys_of(members_of(items[i]))))
}

/// Whether every element is an object.
pub open spec fn all_objects(items: Seq<Json>) -> bool {
    forall|i: int| 0 <= i < items.len() ==> (#[trigger] items[i]) is Object
}

/// The key list that an array's table hoists, if the array becomes a table: at least two
/// elements, all objects, of which two or more share the most frequent shape, and that shape
/// has a key. Of equally frequent shapes the one that appears first is hoisted.
pub open spec fn header(items: Seq<Json>, digest: spec_fn(Seq<Seq<u8>>) -> u64) -> Option<
    Seq<Seq<u8>>,
> {
    if items.len() >= 2 && all_objects(items) {
        match hoisted(codes_of(items, digest)) {
            Some(k) => {
                let keys = keys_of(members_of(items[k]));
                if keys.len() > 0 {
                    Some(keys)
                } else {
                    None
                }
            },
            None => None,
        }
    } else {
        None
    }
}

/// A tab and a key, for each key.
pub open spec fn key_fields(keys: Seq<Seq<u8>>) -> Seq<u8>
    decreases keys.len(),
{
    if keys.len() == 0 {
        Seq::empty()
    } else {
        seq![TAB] + keys[0] + key_fields(keys.drop_first())
    }
}

/// A tab and the minified value, for each member.
pub open spec fn value_fields(members: Seq<(Seq<u8>, Json)>) -> Seq<u8>
    decreases members.len(),
{
    if members.len() == 0 {
        Seq::empty()
    } else {
        seq![TAB] + minified(members[0].1, Style::Verbatim) + value_fields(members.drop_first())
    }
}

/// A tab, the key, a tab and the minified value, for each member.
pub open spec fn pair_fields(members: Seq<(Seq<u8>, Json)>) -> Seq<u8>
    decreases members.len(),
{
    if members.len() == 0 {
        Seq::empty()
    } else {
        seq![TAB] + members[0].0 + seq![TAB] + minified(members[0].1, Style::Verbatim)
            + pair_fields(members.drop_first())
    }
}

/// The row of an element: plain, `+` and its values, if its keys are the header's in order;
/// else deviating, `*`, the number of its members, and its keys and values.
pub open spec fn row(members: Seq<(Seq<u8>, Json)>, keys: Seq<Seq<u8>>) -> Seq<u8> {
    (if keys_of(members) == keys {
        seq![PLUS] + value_fields(members)
    } else {
        seq![STAR, TAB] + decimal(members.len()) + pair_fields(members)
    }) + seq![LF]
}

/// The rows of the elements, in order.
pub open spec fn rows(items: Seq<Json>, keys: Seq<Seq<u8>>) -> Seq<u8>
    decreases items.len(),
{
    if items.len() == 0 {
        Seq::empty()
    } else {
        row(members_of(items[0]), keys) + rows(items.drop_first(), keys)
    }
}

/// A table block: a newline, the header line with the number of rows and the hoisted keys,
/// and the rows.
pub open spec fn table(items: Seq<Json>, keys: Seq<Seq<u8>>) -> Seq<u8> {
    seq![LF, HASH] + decimal(items.len()) + key_fields(keys) + seq![LF] + rows(items, keys)
}

/// A document in tabular form: minified JSON with every lexeme as it stands, in which each
/// outermost array that has a header is written as its table.
pub open spec fn tabular(j: Json, digest: spec_fn(Seq<Seq<u8>>) -> u64) -> Seq<u8>
    decreases j,
{
    match j {
        Json::Scalar(l) => l,
        Json::String(l) => l,
        Json::Array(items) => match header(items, digest) {
            Some(keys) => table(items, keys),
            None => seq![LBRACKET] + tabular_items(items, digest, true) + seq![RBRACKET],
        },
        Json::Object(members) => seq![LBRACE] + tabular_members(members, digest, true) + seq![
            RBRACE,
        ],
    }
}

pub open spec fn tabular_items(
    items: Seq<Json>,
    digest: spec_fn(Seq<Seq<u8>>) -> u64,
    first: bool,
) -> Seq<u8>
    decreases items,
{
    if items.len() == 0 {
        Seq::empty()
    } else {
        gap(first) + tabular(items[0], digest) + tabular_items(items.drop_first(), digest, false)
    }
}

pub open spec fn tabular_members(
    members: Seq<(Seq<u8>, Json)>,
    digest: spec_fn(Seq<Seq<u8>>) -> u64,
    first: bool,
) -> Seq<u8>
    decreases members,
{
    if members.len() == 0 {
        Seq::empty()
    } else {
        gap(first) + members[0].0 + seq![COLON] + tabular(members[0].1, digest) + tabular_members(
            members.drop_first(),
            digest,
            false,
        )
    }
}

/// Whether some array of the document becomes a table.
pub open spec fn has_table(j: Json, digest: spec_fn(Seq<Seq<u8>>) -> u64) -> bool
    decreases j,
{
    match j {
        Json::Array(items) => header(items, digest) is Some || items_have_table(items, digest),
        Json::Object(members) => members_have_table(members, digest),
        _ => false,
    }
}

pub open spec fn items_have_table(
    items: Seq<Json>,
    digest: spec_fn(Seq<Seq<u8>>) -> u64,
) -> bool
    decreases items,
{
    items.len() > 0 && (has_table(items[0], digest) || items_have_table(
        items.drop_first(),
        digest,
    ))
}

pub open spec fn members_have_table(
    members: Seq<(Seq<u8>, Json)>,
    digest: spec_fn(Seq<Seq<u8>>) -> u64,
) -> bool
    decreases members,
{
    members.len() > 0 && (has_table(members[0].1, digest) || members_have_table(
        members.drop_first(),
        digest,
    ))
}

// ---------------------------------------------------------------------------
// The digest
// ---------------------------------------------------------------------------

/// Whether a digest tells the key lists apart that the elements of one array have, in every
/// array of objects in a document.
pub open spec fn tells_apart(j: Json, digest: spec_fn(Seq<Seq<u8>>) -> u64) -> bool
    decreases j,
{
    match j {
        Json::Array(items) => {
            &&& all_objects(items) ==> elements_told_apart(items, digest)
            &&& items_tell_apart(items, digest)
        },
        Json::Object(members) => members_tell_apart(members, digest),
        _ => true,
    }
}

/// Whether elements with one digest have one key list.
pub open spec fn elements_told_apart(
    items: Seq<Json>,
    digest: spec_fn(Seq<Seq<u8>>) -> u64,
) -> bool {
    forall|i: int, k: int|
        #![trigger items[i], items[k]]
        0 <= i < items.len() && 0 <= k < items.len() && digest(keys_of(members_of(items[i])))
            == digest(keys_of(members_of(items[k]))) ==> keys_of(members_of(items[i])) == keys_of(
            members_of(items[k]),
        )
}

pub open spec fn items_tell_apart(items: Seq<Json>, digest: spec_fn(Seq<Seq<u8>>) -> u64) -> bool
    decreases items,
{
    items.len() > 0 ==> tells_apart(items[0], digest) && items_tell_apart(
        items.drop_first(),
        digest,
    )
}

pub open spec fn members_tell_apart(
    members: Seq<(Seq<u8>, Json)>,
    digest: spec_fn(Seq<Seq<u8>>) -> u64,
) -> bool
    decreases members,
{
    members.len() > 0 ==> tells_apart(members[0].1, digest) && members_tell_apart(
        members.drop_first(),
        digest,
    )
}

/// Codes that are equal at the same positions occur equally often.
proof fn lemma_occurrences_alike(a: Seq<u64>, b: Seq<u64>, k: int, n: int)
    requires
        a.len() == b.len(),
        0 <= k < a.len(),
        0 <= n <= a.len(),
        forall|i: int| 0 <= i < a.len() ==> (#[trigger] a[i] == a[k] <==> b[i] == b[k]),
    ensures
        occurrences(a.take(n), a[k]) == occurrences(b.take(n), b[k]),
    decreases n,
{
    if n > 0 {
        lemma_occurrences_alike(a, b, k, n - 1);
        assert(a.take(n).drop_last() =~= a.take(n - 1));
        assert(b.take(n).drop_last() =~= b.take(n - 1));
        assert(a.take(n).last() == a[n - 1]);
        assert(b.take(n).last() == b[n - 1]);
    }
}

proof fn lemma_leader_alike(a: Seq<u64>, b: Seq<u64>, k: int)
    requires
        a.len() == b.len(),
        forall|i: int, h: int|
            #![trigger a[i], a[h]]
            0 <= i < a.len() && 0 <= h < a.len() ==> (a[i] == a[h] <==> b[i] == b[h]),
        is_leader(a, k),
    ensures
        is_leader(b, k),
        occurrences(a, a[k]) == occurrences(b, b[k]),
{
    assert forall|i: int| 0 <= i < a.len() implies occurrences(a, #[trigger] a[i]) == occurrences(
        b,
        b[i],
    ) by {
        lemma_occurrences_alike(a, b, i, a.len() as int);
        assert(a.take(a.len() as int) =~= a);
        assert(b.take(b.len() as int) =~= b);
    }
    assert forall|i: int| 0 <= i < b.len() implies occurrences(b, #[trigger] b[i]) <= occurrences(
        b,
        b[k],
    ) by {
        assert(occurrences(a, a[i]) <= occurrences(a, a[k]));
    }
    assert forall|i: int| 0 <= i < k implies occurrences(b, #[trigger] b[i]) < occurrences(
        b,
        b[k],
    ) by {
        assert(occurrences(a, a[i]) < occurrences(a, a[k]));
    }
}

proof fn lemma_header_alike(
    items: Seq<Json>,
    a: spec_fn(Seq<Seq<u8>>) -> u64,
    b: spec_fn(Seq<Seq<u8>>) -> u64,
)
    requires
        all_objects(items) ==> elements_told_apart(items, a) && elements_told_apart(items, b),
    ensures
        header(items, a) == header(items, b),
{
    if all_objects(items) {
        let ca = codes_of(items, a);
        let cb = codes_of(items, b);
        assert forall|i: int, h: int|
            #![trigger ca[i], ca[h]]
            0 <= i < ca.len() && 0 <= h < ca.len() implies (ca[i] == ca[h] <==> cb[i] == cb[h]) by {
            assert(items[i] == items[i] && items[h] == items[h]);
        }
        assert forall|i: int, h: int|
            #![trigger cb[i], cb[h]]
            0 <= i < cb.len() && 0 <= h < cb.len() implies (cb[i] == cb[h] <==> ca[i] == ca[h]) by {
            assert(ca[i] == ca[h] <==> cb[i] == cb[h]);
        }
        if exists|k: int| is_leader(ca, k) && occurrences(ca, ca[k]) >= 2 {
            let k = choose|k: int| is_leader(ca, k) && occurrences(ca, ca[k]) >= 2;
            lemma_leader_alike(ca, cb, k);
            lemma_leader_unique(ca, k, choose|k: int| is_leader(ca, k));
            lemma_leader_unique(cb, k, choose|k: int| is_leader(cb, k));
        }
        if exists|k: int| is_leader(cb, k) && occurrences(cb, cb[k]) >= 2 {
            let k = choose|k: int| is_leader(cb, k) && occurrences(cb, cb[k]) >= 2;
            lemma_leader_alike(cb, ca, k);
        }
    }
}

/// The tabular form does not depend on the digest, nor on the machine that computes it, unless
/// a digest takes two key lists of one array for the same.
pub proof fn law_tabular_ignores_digest(
    j: Json,
    a: spec_fn(Seq<Seq<u8>>) -> u64,
    b: spec_fn(Seq<Seq<u8>>) -> u64,
)
    requires
        tells_apart(j, a),
        tells_apart(j, b),
    ensures
        tabular(j, a) == tabular(j, b),
        has_table(j, a) == has_table(j, b),
    decreases j,
{
    match j {
        Json::Array(items) => {
            lemma_header_alike(items, a, b);
            lemma_items_ignore_digest(items, a, b, true);
        },
        Json::Object(members) => {
            lemma_members_ignore_digest(members, a, b, true);
        },
        _ => {},
    }
}

proof fn lemma_items_ignore_digest(
    items: Seq<Json>,
    a: spec_fn(Seq<Seq<u8>>) -> u64,
    b: spec_fn(Seq<Seq<u8>>) -> u64,
    first: bool,
)
    requires
        items_tell_apart(items, a),
        items_tell_apart(items, b),
    ensures
        tabular_items(items, a, first) == tabular_items(items, b, first),
        items_have_table(items, a) == items_have_table(items, b),
    decreases items,
{
    if items.len() > 0 {
        law_tabular_ignores_digest(items[0], a, b);
        lemma_items_ignore_digest(items.drop_first(), a, b, false);
    }
}

proof fn lemma_members_ignore_digest(
    members: Seq<(Seq<u8>, Json)>,
    a: spec_fn(Seq<Seq<u8>>) -> u64,
    b: spec_fn(Seq<Seq<u8>>) -> u64,
    first: bool,
)
    requires
        members_tell_apart(members, a),
        members_tell_apart(members, b),
    ensures
        tabular_members(members, a, first) == tabular_members(members, b, first),
        members_have_table(members, a) == members_have_table(members, b),
    decreases members,
{
    if members.len() > 0 {
        law_tabular_ignores_digest(members[0].1, a, b);
        lemma_members_ignore_digest(members.drop_first(), a, b, false);
    }
}

/// The key lists of the elements.
pub open spec fn key_lists(items: Seq<Json>) -> Seq<Seq<Seq<u8>>> {
    Seq::new(items.len(), |i: int| keys_of(members_of(items[i])))
}

/// How often `keys` occurs in `lists`.
pub open spec fn list_count(lists: Seq<Seq<Seq<u8>>>, keys: Seq<Seq<u8>>) -> nat
    decreases lists.len(),
{
    if lists.len() == 0 {
        0
    } else {
        list_count(lists.drop_last(), keys) + (if lists.last() == keys {
            1nat
        } else {
            0nat
        })
    }
}

/// Whether the key list at `k` occurs most often, and is the first to stand that does.
pub open spec fn leads(lists: Seq<Seq<Seq<u8>>>, k: int) -> bool {
    &&& 0 <= k < lists.len()
    &&& forall|i: int|
        0 <= i < lists.len() ==> list_count(lists, #[trigger] lists[i]) <= list_count(
            lists,
            lists[k],
        )
    &&& forall|i: int|
        0 <= i < k ==> list_count(lists, #[trigger] lists[i]) < list_count(lists, lists[k])
}

proof fn lemma_list_count(codes: Seq<u64>, lists: Seq<Seq<Seq<u8>>>, k: int, n: int)
    requires
        codes.len() == lists.len(),
        0 <= k < codes.len(),
        0 <= n <= codes.len(),
        forall|i: int|
            0 <= i < codes.len() ==> (#[trigger] codes[i] == codes[k] <==> lists[i] == lists[k]),
    ensures
        occurrences(codes.take(n), codes[k]) == list_count(lists.take(n), lists[k]),
    decreases n,
{
    if n > 0 {
        lemma_list_count(codes, lists, k, n - 1);
        assert(codes.take(n).drop_last() =~= codes.take(n - 1));
        assert(lists.take(n).drop_last() =~= lists.take(n - 1));
        assert(codes.take(n).last() == codes[n - 1]);
        assert(lists.take(n).last() == lists[n - 1]);
    }
}

/// With a digest that tells the key lists of an array apart, the header is the key list that
/// occurs most often, twice at least, and of equally frequent ones the first: an array of
/// objects has one exactly if such a list is not empty.
pub proof fn law_header_is_the_most_frequent_keys(
    items: Seq<Json>,
    digest: spec_fn(Seq<Seq<u8>>) -> u64,
    k: int,
)
    requires
        items.len() >= 2,
        all_objects(items),
        elements_told_apart(items, digest),
        leads(key_lists(items), k),
    ensures
        header(items, digest) == (if list_count(key_lists(items), key_lists(items)[k]) >= 2
            && key_lists(items)[k].len() > 0 {
            Some(key_lists(items)[k])
        } else {
            None
        }),
{
    let codes = codes_of(items, digest);
    let lists = key_lists(items);
    assert forall|i: int| 0 <= i < codes.len() implies occurrences(codes, #[trigger] codes[i])
        == list_count(lists, lists[i]) by {
        assert forall|h: int| 0 <= h < codes.len() implies (#[trigger] codes[h] == codes[i]
            <==> lists[h] == lists[i]) by {
            assert(items[h] == items[h] && items[i] == items[i]);
        }
        lemma_list_count(codes, lists, i, codes.len() as int);
        assert(codes.take(codes.len() as int) =~= codes);
        assert(lists.take(lists.len() as int) =~= lists);
    }
    assert(is_leader(codes, k)) by {
        assert forall|i: int| 0 <= i < codes.len() implies occurrences(codes, #[trigger] codes[i])
            <= occurrences(codes, codes[k]) by {
            assert(list_count(lists, lists[i]) <= list_count(lists, lists[k]));
        }
        assert forall|i: int| 0 <= i < k implies occurrences(codes, #[trigger] codes[i])
            < occurrences(codes, codes[k]) by {
            assert(list_count(lists, lists[i]) < list_count(lists, lists[k]));
        }
    }
    assert forall|x: int| is_leader(codes, x) implies x == k by {
        lemma_leader_unique(codes, x, k);
    }
}

// ---------------------------------------------------------------------------
// Which arrays become tables
// ---------------------------------------------------------------------------

/// Whether a document is another or stands somewhere in it.
pub open spec fn part_of(part: Json, j: Json) -> bool
    decreases j,
{
    part == j || match j {
        Json::Array(items) => exists|i: int|
            0 <= i < items.len() && part_of(part, #[trigger] items[i]),
        Json::Object(members) => exists|i: int|
            0 <= i < members.len() && part_of(part, (#[trigger] members[i]).1),
        _ => false,
    }
}

proof fn lemma_leader_exists(codes: Seq<u64>, n: int) -> (k: int)
    requires
        0 < n <= codes.len(),
    ensures
        0 <= k < n,
        forall|i: int|
            0 <= i < n ==> occurrences(codes, #[trigger] codes[i]) <= occurrences(codes, codes[k]),
        forall|i: int|
            0 <= i < k ==> occurrences(codes, #[trigger] codes[i]) < occurrences(codes, codes[k]),
    decreases n,
{
    if n == 1 {
        0
    } else {
        let k = lemma_leader_exists(codes, n - 1);
        if occurrences(codes, codes[n - 1]) > occurrences(codes, codes[k]) {
            assert forall|i: int| 0 <= i < n - 1 implies occurrences(codes, #[trigger] codes[i])
                < occurrences(codes, codes[n - 1]) by {}
            n - 1
        } else {
            k
        }
    }
}

proof fn lemma_occurs(codes: Seq<u64>, i: int, n: int)
    requires
        0 <= i < n <= codes.len(),
    ensures
        occurrences(codes.take(n), codes[i]) >= 1,
    decreases n,
{
    assert(codes.take(n).drop_last() =~= codes.take(n - 1));
    assert(codes.take(n).last() == codes[n - 1]);
    if i < n - 1 {
        lemma_occurs(codes, i, n - 1);
    }
}

proof fn lemma_occurs_twice(codes: Seq<u64>, i: int, k: int, n: int)
    requires
        0 <= i < k < n <= codes.len(),
        codes[i] == codes[k],
    ensures
        occurrences(codes.take(n), codes[i]) >= 2,
    decreases n,
{
    assert(codes.take(n).drop_last() =~= codes.take(n - 1));
    assert(codes.take(n).last() == codes[n - 1]);
    if k < n - 1 {
        lemma_occurs_twice(codes, i, k, n - 1);
    } else {
        lemma_occurs(codes, i, n - 1);
    }
}

/// Whether being empty is not the shape that an array's objects share most: no object is empty, or the digest tells the key lists apart and the one that leads is not empty.
pub open spec fn hoistable(items: Seq<Json>, digest: spec_fn(Seq<Seq<u8>>) -> u64) -> bool {
    ||| forall|n: int| 0 <= n < items.len() ==> (#[trigger] key_lists(items)[n]).len() > 0
    ||| elements_told_apart(items, digest) && forall|n: int| #[trigger]
        leads(key_lists(items), n) ==> key_lists(items)[n].len() > 0
}

/// An array of objects in which two have the same keys, in order, becomes a table: if no
/// object is empty, whatever the digest; else if the digest tells its key lists apart and being
/// empty is not what most of its objects share.
pub proof fn law_shared_keys_are_hoisted(
    items: Seq<Json>,
    digest: spec_fn(Seq<Seq<u8>>) -> u64,
    i: int,
    k: int,
)
    requires
        0 <= i < k < items.len(),
        all_objects(items),
        key_lists(items)[i] == key_lists(items)[k],
        key_lists(items)[i].len() > 0,
        hoistable(items, digest),
    ensures
        header(items, digest) is Some,
{
    let codes = codes_of(items, digest);
    let lists = key_lists(items);
    assert(codes[i] == codes[k]);
    lemma_occurs_twice(codes, i, k, codes.len() as int);
    assert(codes.take(codes.len() as int) =~= codes);
    let lead = lemma_leader_exists(codes, codes.len() as int);
    assert(is_leader(codes, lead));
    let hoist = hoisted(codes)->0;
    lemma_leader_unique(codes, lead, hoist);
    assert(lists[lead].len() > 0) by {
        if !(forall|n: int| 0 <= n < items.len() ==> (#[trigger] key_lists(items)[n]).len() > 0) {
            lemma_counts(items, digest, lead);
            assert forall|n: int| 0 <= n < lists.len() implies list_count(lists, #[trigger] lists[n])
                <= list_count(lists, lists[lead]) by {
                lemma_counts(items, digest, n);
                assert(occurrences(codes, codes[n]) <= occurrences(codes, codes[lead]));
            }
            assert forall|n: int| 0 <= n < lead implies list_count(lists, #[trigger] lists[n])
                < list_count(lists, lists[lead]) by {
                lemma_counts(items, digest, n);
                assert(occurrences(codes, codes[n]) < occurrences(codes, codes[lead]));
            }
            assert(leads(lists, lead));
        }
    }
}

proof fn lemma_counts(items: Seq<Json>, digest: spec_fn(Seq<Seq<u8>>) -> u64, i: int)
    requires
        elements_told_apart(items, digest),
        0 <= i < items.len(),
    ensures
        occurrences(codes_of(items, digest), codes_of(items, digest)[i]) == list_count(
            key_lists(items),
            key_lists(items)[i],
        ),
{
    let codes = codes_of(items, digest);
    let lists = key_lists(items);
    assert forall|h: int| 0 <= h < codes.len() implies (#[trigger] codes[h] == codes[i]
        <==> lists[h] == lists[i]) by {
        assert(items[h] == items[h] && items[i] == items[i]);
    }
    lemma_list_count(codes, lists, i, codes.len() as int);
    assert(codes.take(codes.len() as int) =~= codes);
    assert(lists.take(lists.len() as int) =~= lists);
}

proof fn lemma_once(codes: Seq<u64>, c: u64)
    requires
        occurrences(codes, c) >= 1,
    ensures
        exists|i: int| 0 <= i < codes.len() && #[trigger] codes[i] == c,
    decreases codes.len(),
{
    if codes.last() == c {
        assert(codes[codes.len() - 1] == c);
    } else {
        lemma_once(codes.drop_last(), c);
        let i = choose|i: int|
            0 <= i < codes.drop_last().len() && #[trigger] codes.drop_last()[i] == c;
        assert(codes[i] == c);
    }
}

proof fn lemma_twice(codes: Seq<u64>, c: u64) -> (r: (int, int))
    requires
        occurrences(codes, c) >= 2,
    ensures
        0 <= r.0 < r.1 < codes.len(),
        codes[r.0] == c,
        codes[r.1] == c,
    decreases codes.len(),
{
    if codes.last() == c {
        lemma_once(codes.drop_last(), c);
        let i = choose|i: int|
            0 <= i < codes.drop_last().len() && #[trigger] codes.drop_last()[i] == c;
        (i, codes.len() - 1)
    } else {
        lemma_twice(codes.drop_last(), c)
    }
}

/// Nothing else becomes a table: an array with a header has two elements at least, all
/// objects; the header is the keys of one of them, and not empty; and, if the digest tells key
/// lists apart, of two.
pub proof fn law_headers_are_shared_keys(items: Seq<Json>, digest: spec_fn(Seq<Seq<u8>>) -> u64)
    requires
        header(items, digest) is Some,
    ensures
        items.len() >= 2,
        forall|i: int| 0 <= i < items.len() ==> (#[trigger] items[i]) is Object,
        header(items, digest)->0.len() > 0,
        exists|i: int|
            0 <= i < items.len() && #[trigger] key_lists(items)[i] == header(items, digest)->0,
        elements_told_apart(items, digest) ==> exists|i: int, k: int|
            #![trigger key_lists(items)[i], key_lists(items)[k]]
            0 <= i < k < items.len() && key_lists(items)[i] == header(items, digest)->0
                && key_lists(items)[k] == header(items, digest)->0,
{
    let codes = codes_of(items, digest);
    let lead = hoisted(codes)->0;
    assert(is_leader(codes, lead));
    let some = choose|k: int| is_leader(codes, k) && occurrences(codes, codes[k]) >= 2;
    lemma_leader_unique(codes, lead, some);
    assert(key_lists(items)[lead] == header(items, digest)->0);
    let (i, k) = lemma_twice(codes, codes[lead]);
    if elements_told_apart(items, digest) {
        assert(items[i] == items[i] && items[k] == items[k] && items[lead] == items[lead]);
        assert(key_lists(items)[i] == header(items, digest)->0);
        assert(key_lists(items)[k] == header(items, digest)->0);
    }
}

proof fn lemma_items_have(items: Seq<Json>, digest: spec_fn(Seq<Seq<u8>>) -> u64, i: int)
    requires
        0 <= i < items.len(),
        has_table(items[i], digest),
    ensures
        items_have_table(items, digest),
    decreases i,
{
    if i > 0 {
        assert(items.drop_first()[i - 1] == items[i]);
        lemma_items_have(items.drop_first(), digest, i - 1);
    }
}

proof fn lemma_members_have(
    members: Seq<(Seq<u8>, Json)>,
    digest: spec_fn(Seq<Seq<u8>>) -> u64,
    i: int,
)
    requires
        0 <= i < members.len(),
        has_table(members[i].1, digest),
    ensures
        members_have_table(members, digest),
    decreases i,
{
    if i > 0 {
        assert(members.drop_first()[i - 1] == members[i]);
        lemma_members_have(members.drop_first(), digest, i - 1);
    }
}

/// A document has a table as soon as an array with a header stands anywhere in it.
pub proof fn law_any_array_makes_a_table(
    items: Seq<Json>,
    j: Json,
    digest: spec_fn(Seq<Seq<u8>>) -> u64,
)
    requires
        part_of(Json::Array(items), j),
        header(items, digest) is Some,
    ensures
        has_table(j, digest),
    decreases j,
{
    let part = Json::Array(items);
    if part != j {
        match j {
            Json::Array(others) => {
                let i = choose|i: int|
                    0 <= i < others.len() && part_of(part, #[trigger] others[i]);
                law_any_array_makes_a_table(items, others[i], digest);
                lemma_items_have(others, digest, i);
            },
            Json::Object(members) => {
                let i = choose|i: int|
                    0 <= i < members.len() && part_of(part, (#[trigger] members[i]).1);
                law_any_array_makes_a_table(items, members[i].1, digest);
                lemma_members_have(members, digest, i);
            },
            _ => {},
        }
    }
}

proof fn lemma_items_table(items: Seq<Json>, digest: spec_fn(Seq<Seq<u8>>) -> u64) -> (i: int)
    requires
        items_have_table(items, digest),
    ensures
        0 <= i < items.len(),
        has_table(items[i], digest),
    decreases items.len(),
{
    if has_table(items[0], digest) {
        0
    } else {
        1 + lemma_items_table(items.drop_first(), digest)
    }
}

proof fn lemma_members_table(
    members: Seq<(Seq<u8>, Json)>,
    digest: spec_fn(Seq<Seq<u8>>) -> u64,
) -> (i: int)
    requires
        members_have_table(members, digest),
    ensures
        0 <= i < members.len(),
        has_table(members[i].1, digest),
    decreases members.len(),
{
    if has_table(members[0].1, digest) {
        0
    } else {
        1 + lemma_members_table(members.drop_first(), digest)
    }
}

/// And only then.
pub proof fn law_a_table_needs_an_array(j: Json, digest: spec_fn(Seq<Seq<u8>>) -> u64)
    requires
        has_table(j, digest),
    ensures
        exists|items: Seq<Json>|
            #[trigger] part_of(Json::Array(items), j) && header(items, digest) is Some,
    decreases j,
{
    match j {
        Json::Array(items) => {
            if header(items, digest) is Some {
                assert(part_of(Json::Array(items), j));
            } else {
                let i = lemma_items_table(items, digest);
                law_a_table_needs_an_array(items[i], digest);
                let part = choose|part: Seq<Json>|
                    #[trigger] part_of(Json::Array(part), items[i]) && header(part, digest) is Some;
                assert(part_of(Json::Array(part), j));
            }
        },
        Json::Object(members) => {
            let i = lemma_members_table(members, digest);
            law_a_table_needs_an_array(members[i].1, digest);
            let part = choose|part: Seq<Json>|
                #[trigger] part_of(Json::Array(part), members[i].1) && header(part, digest) is Some;
            assert(part_of(Json::Array(part), j));
        },
        _ => {},
    }
}

/// Whether an array stands in a document, and no array around it has a header.
pub open spec fn outermost(
    items: Seq<Json>,
    j: Json,
    digest: spec_fn(Seq<Seq<u8>>) -> u64,
) -> bool
    decreases j,
{
    match j {
        Json::Array(others) => items == others || (header(others, digest) is None && exists|i: int|
            0 <= i < others.len() && outermost(items, #[trigger] others[i], digest)),
        Json::Object(members) => exists|i: int|
            0 <= i < members.len() && outermost(items, (#[trigger] members[i]).1, digest),
        _ => false,
    }
}

/// Whether a text stands in another.
pub open spec fn stands_in(part: Seq<u8>, t: Seq<u8>) -> bool {
    exists|before: Seq<u8>, after: Seq<u8>| t == #[trigger] (before + part + after)
}

proof fn lemma_stands_around(part: Seq<u8>, t: Seq<u8>, a: Seq<u8>, b: Seq<u8>)
    requires
        stands_in(part, t),
    ensures
        stands_in(part, a + t + b),
{
    let (before, after) = choose|before: Seq<u8>, after: Seq<u8>|
        t == #[trigger] (before + part + after);
    assert(a + t + b =~= (a + before) + part + (after + b));
}

/// Every outermost array is written as a document of its own would be, in its place.
pub proof fn law_outermost_arrays_are_written_alike(
    items: Seq<Json>,
    j: Json,
    digest: spec_fn(Seq<Seq<u8>>) -> u64,
)
    requires
        outermost(items, j, digest),
    ensures
        stands_in(tabular(Json::Array(items), digest), tabular(j, digest)),
    decreases j, 0int,
{
    let part = tabular(Json::Array(items), digest);
    let none = Seq::<u8>::empty();
    match j {
        Json::Array(others) => {
            if items == others {
                assert(part =~= none + part + none);
            } else {
                let i = choose|i: int|
                    0 <= i < others.len() && outermost(items, #[trigger] others[i], digest);
                lemma_item_stands(items, others, digest, i, true);
                lemma_stands_around(
                    part,
                    tabular_items(others, digest, true),
                    seq![LBRACKET],
                    seq![RBRACKET],
                );
            }
        },
        Json::Object(members) => {
            let i = choose|i: int|
                0 <= i < members.len() && outermost(items, (#[trigger] members[i]).1, digest);
            lemma_member_stands(items, members, digest, i, true);
            lemma_stands_around(
                part,
                tabular_members(members, digest, true),
                seq![LBRACE],
                seq![RBRACE],
            );
        },
        _ => {},
    }
}

proof fn lemma_item_stands(
    items: Seq<Json>,
    others: Seq<Json>,
    digest: spec_fn(Seq<Seq<u8>>) -> u64,
    i: int,
    first: bool,
)
    requires
        0 <= i < others.len(),
        outermost(items, others[i], digest),
    ensures
        stands_in(tabular(Json::Array(items), digest), tabular_items(others, digest, first)),
    decreases others, 1int,
{
    let part = tabular(Json::Array(items), digest);
    let rest = others.drop_first();
    let a = tabular(others[0], digest);
    let b = tabular_items(rest, digest, false);
    if i == 0 {
        law_outermost_arrays_are_written_alike(items, others[0], digest);
        lemma_stands_around(part, a, gap(first), b);
    } else {
        assert(rest[i - 1] == others[i]);
        lemma_item_stands(items, rest, digest, i - 1, false);
        lemma_stands_around(part, b, gap(first) + a, Seq::empty());
        assert(gap(first) + a + b + Seq::<u8>::empty() =~= gap(first) + a + b);
    }
}

proof fn lemma_member_stands(
    items: Seq<Json>,
    members: Seq<(Seq<u8>, Json)>,
    digest: spec_fn(Seq<Seq<u8>>) -> u64,
    i: int,
    first: bool,
)
    requires
        0 <= i < members.len(),
        outermost(items, members[i].1, digest),
    ensures
        stands_in(tabular(Json::Array(items), digest), tabular_members(members, digest, first)),
    decreases members, 1int,
{
    let part = tabular(Json::Array(items), digest);
    let rest = members.drop_first();
    let start = gap(first) + members[0].0 + seq![COLON];
    let a = tabular(members[0].1, digest);
    let b = tabular_members(rest, digest, false);
    if i == 0 {
        law_outermost_arrays_are_written_alike(items, members[0].1, digest);
        lemma_stands_around(part, a, start, b);
    } else {
        assert(rest[i - 1] == members[i]);
        lemma_member_stands(items, rest, digest, i - 1, false);
        lemma_stands_around(part, b, start + a, Seq::empty());
        assert(start + a + b + Seq::<u8>::empty() =~= start + a + b);
    }
}

/// What a hasher is fed for a key list: for each key its bytes and then the byte 255, which no
/// text in UTF-8 holds.
pub proof fn law_keys_are_fed_apart(keys: Seq<Seq<u8>>)
    ensures
        key_feed(keys).len() == 2 * keys.len(),
        forall|k: int|
            #![trigger keys[k]]
            0 <= k < keys.len() ==> key_feed(keys)[2 * k] == (true, keys[k]) && key_feed(keys)[2 * k
                + 1] == (false, seq![0xFFu8]),
    decreases keys.len(),
{
    if keys.len() > 0 {
        let shorter = keys.drop_last();
        law_keys_are_fed_apart(shorter);
        assert forall|k: int| #![trigger keys[k]] 0 <= k < keys.len() implies key_feed(keys)[2 * k]
            == (true, keys[k]) && key_feed(keys)[2 * k + 1] == (false, seq![0xFFu8]) by {
            if k < shorter.len() {
                assert(shorter[k] == keys[k]);
            }
        }
    }
}

} // verus!
