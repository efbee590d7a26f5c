//! A path that leads somewhere is decoded from its encoding to a path that
//! leads to the same place.
use vstd::prelude::*;

use crate::cbor::value::Item;
use crate::text::{find_text, index_from, number_in};
use crate::yang::choices::{governing, governing_builtin};
use crate::yang::meaning::{one_tree, tree_of_data};
use crate::yang::path_laws::{
    chosen, connected, depth_after, key_reads_back, keys_read_back, law_key_reads_back,
    law_shown_path_reads_back, lemma_depth_joined, lemma_one_step, lemma_walk_ends, no_brackets,
    pairs_shown, segment_fits, way_fits, way_reads_back,
};
use crate::yang::readings::{key_shown, keys_shown, path_decoded, path_len, path_to, value_decoded};
use crate::yang::scalars::DecimalView;
use crate::yang::schema::{child_named, child_of, is_narrow, Builtin, NodeView, SchemaView};
use crate::yang::tree_laws::{found_by_sid, lemma_child_name};
use crate::yang::value_laws::{
    law_plain_value_reads_back, law_value_reads_back, law_whole_number_reads_back, lemma_no_digits,
};
use crate::yang::values::{
    key_tree, keys_encoded, parts_from, path_encoded, path_item, path_parts, path_walked,
    segment_encoded, segment_name, selected, selectors_from, stray_selector, value_encoded,
};

verus! {

/// Whether a key of a list is a leaf of the list with a type.
pub open spec fn key_known(s: SchemaView, list: usize, j: int) -> bool {
    child_of(s, list, s.nodes[list as int].keys[j]) is Some && s.nodes[child_of(
        s,
        list,
        s.nodes[list as int].keys[j],
    )->0 as int].type_id is Some
}

/// Whether a key is a text or truth value or whole number of at most 32 bits,
/// without brackets.
pub open spec fn key_is_plain(s: SchemaView, id: usize, raw: Seq<char>) -> bool {
    let b = governing_builtin(s, id);
    &&& no_brackets(raw)
    &&& b == Builtin::String || b == Builtin::Boolean || (is_narrow(b) && (
    s.types[governing(s, id) as int].ranges.len() > 0 || number_in(
        raw,
        i64::MIN as int,
        i64::MAX as int,
    ) is Some))
}

/// The data item that the text of a key is encoded as.
pub open spec fn key_item(s: SchemaView, id: usize, raw: Seq<char>) -> Result<Item, Seq<char>> {
    match key_tree(s, id, raw) {
        Ok(v) => value_encoded(s, id, v, false),
        Err(e) => Err(e),
    }
}

/// Whether a key comes back: a plain one, or any whose data item reads back.
pub open spec fn key_comes_back(
    s: SchemaView,
    id: usize,
    raw: Seq<char>,
    d: Seq<DecimalView>,
) -> bool {
    key_is_plain(s, id, raw) || (key_item(s, id, raw) matches Ok(item) ==> key_reads_back(
        s,
        id,
        item,
        d,
    ))
}

/// The text that a key comes back as.
pub open spec fn key_text(s: SchemaView, id: usize, raw: Seq<char>, d: Seq<DecimalView>) -> Seq<
    char,
> {
    match key_item(s, id, raw) {
        Ok(item) => match value_decoded(s, id, item, false, d) {
            Ok(v) => key_shown(v),
            Err(_) => Seq::empty(),
        },
        Err(_) => Seq::empty(),
    }
}

/// Whether the `j`-th key of a list, with the text that it is given, can be
/// shown in a path: it comes back, its name opens no bracket if more segments
/// follow, and behind a name with a closing bracket it brings no slash.
pub open spec fn key_fits(
    s: SchemaView,
    list: usize,
    j: int,
    raw: Seq<char>,
    last: bool,
    d: Seq<DecimalView>,
) -> bool {
    let n = s.nodes[list as int];
    &&& !last ==> !n.keys[j].contains('[')
    &&& key_known(s, list, j) ==> key_comes_back(s, key_id(s, list, j), raw, d) && (n.name.contains(
        ']',
    ) ==> !n.keys[j].contains('/') && !key_text(s, key_id(s, list, j), raw, d).contains('/'))
}

/// How many keys of a list are selected one after the other, from the `j`-th
/// on.
pub open spec fn leading(keys: Seq<(Seq<char>, Seq<char>)>, wanted: Seq<Seq<char>>, j: int) -> nat
    decreases wanted.len() - j,
{
    if 0 <= j < wanted.len() && selected(keys, wanted[j], 0) is Some {
        1 + leading(keys, wanted, j + 1)
    } else {
        0
    }
}

/// Whether the selectors of a segment select the first keys of a list and no
/// others.
pub open spec fn only_leading(keys: Seq<(Seq<char>, Seq<char>)>, wanted: Seq<Seq<char>>) -> bool {
    forall|j: int|
        leading(keys, wanted, 0) <= j < wanted.len() ==> selected(keys, #[trigger] wanted[j], 0)
            is None
}

/// Whether all keys that are selected in a list can be shown in a path.
pub open spec fn selected_fit(
    s: SchemaView,
    list: usize,
    keys: Seq<(Seq<char>, Seq<char>)>,
    last: bool,
    d: Seq<DecimalView>,
) -> bool {
    let wanted = s.nodes[list as int].keys;
    forall|j: int|
        0 <= j < wanted.len() ==> (selected(keys, #[trigger] wanted[j], 0) matches Some(raw)
            ==> key_fits(s, list, j, raw, last, d))
}

/// Whether a path, from its `i`-th segment on, gives every key of each list
/// that it passes, and of the list that it ends at, if it does, the first ones
/// or none, the next one being known; all of them can be shown in a path, and
/// no name on the way but the last closes a bracket.
pub open spec fn keys_given(
    s: SchemaView,
    parts: Seq<Seq<char>>,
    i: int,
    cur: usize,
    d: Seq<DecimalView>,
) -> bool
    decreases parts.len() - i,
{
    if i < 0 || i >= parts.len() {
        true
    } else {
        match (
            selectors_from(parts[i], index_from(parts[i], '[', 0)),
            child_of(s, cur, segment_name(parts[i])),
        ) {
            (Ok(keys), Some(child)) => {
                let n = s.nodes[child as int];
                let given = leading(keys, n.keys, 0) as int;
                let last = i + 1 == parts.len();
                &&& !last ==> given == n.keys.len() && !n.name.contains(']')
                &&& given < n.keys.len() ==> key_known(s, child, given)
                &&& only_leading(keys, n.keys)
                &&& selected_fit(s, child, keys, last, d)
                &&& keys_given(s, parts, i + 1, child, d)
            },
            _ => true,
        }
    }
}

/// What one selected key of a list is encoded as.
#[verifier::opaque]
spec fn key_made(
    s: SchemaView,
    list: usize,
    keys: Seq<(Seq<char>, Seq<char>)>,
    j: int,
    item: Item,
) -> bool {
    let wanted = s.nodes[list as int].keys;
    &&& selected(keys, wanted[j], 0) is Some
    &&& child_of(s, list, wanted[j]) is Some
    &&& s.nodes[child_of(s, list, wanted[j])->0 as int].type_id is Some
    &&& key_tree(s, key_id(s, list, j), selected(keys, wanted[j], 0)->0) is Ok
    &&& value_encoded(
        s,
        key_id(s, list, j),
        key_tree(s, key_id(s, list, j), selected(keys, wanted[j], 0)->0)->Ok_0,
        false,
    ) == Ok::<Item, Seq<char>>(item)
}

/// The type of the `j`-th key of a list.
pub open spec fn key_id(s: SchemaView, list: usize, j: int) -> usize {
    s.nodes[child_of(s, list, s.nodes[list as int].keys[j])->0 as int].type_id->0
}

/// One step of encoding keys.
proof fn lemma_key_one(
    s: SchemaView,
    path: Seq<char>,
    name: Seq<char>,
    list: usize,
    keys: Seq<(Seq<char>, Seq<char>)>,
    j: int,
    seen: Seq<Item>,
) -> (item: Item)
    requires
        0 <= j < s.nodes[list as int].keys.len(),
        selected(keys, s.nodes[list as int].keys[j], 0) is Some,
        keys_encoded(s, path, name, list, keys, j, seen) is Ok,
        key_short(path, keys),
    ensures
        key_made(s, list, keys, j, item),
        keys_encoded(s, path, name, list, keys, j, seen) == keys_encoded(
            s,
            path,
            name,
            list,
            keys,
            j + 1,
            seen.push(item),
        ),
{
    let raw = selected(keys, s.nodes[list as int].keys[j], 0)->0;
    lemma_selected_is_there(keys, s.nodes[list as int].keys[j], 0);
    let t = key_id(s, list, j);
    crate::yang::path_laws::lemma_key_size(s, t, raw);
    reveal(key_made);
    value_encoded(s, t, key_tree(s, t, raw)->Ok_0, false)->Ok_0
}

/// Whether the values of selectors are shorter than a path.
spec fn key_short(path: Seq<char>, keys: Seq<(Seq<char>, Seq<char>)>) -> bool {
    forall|i: int| 0 <= i < keys.len() ==> (#[trigger] keys[i]).1.len() < path.len()
}

/// What is selected is one of the selectors.
proof fn lemma_selected_is_there(
    keys: Seq<(Seq<char>, Seq<char>)>,
    name: Seq<char>,
    from: int,
)
    requires
        0 <= from,
    ensures
        selected(keys, name, from) matches Some(raw) ==> exists|i: int|
            from <= i < keys.len() && (#[trigger] keys[i]).0 == name && keys[i].1 == raw,
    decreases keys.len() - from,
{
    if from < keys.len() {
        if keys[from].0 == name {
            assert(keys[from].0 == name && keys[from].1 == keys[from].1);
        } else {
            lemma_selected_is_there(keys, name, from + 1);
        }
    }
}

/// A key that is not selected is passed over.
proof fn lemma_key_none(
    s: SchemaView,
    path: Seq<char>,
    name: Seq<char>,
    list: usize,
    keys: Seq<(Seq<char>, Seq<char>)>,
    j: int,
    seen: Seq<Item>,
)
    requires
        0 <= j < s.nodes[list as int].keys.len(),
        selected(keys, s.nodes[list as int].keys[j], 0) is None,
    ensures
        keys_encoded(s, path, name, list, keys, j, seen) == keys_encoded(
            s,
            path,
            name,
            list,
            keys,
            j + 1,
            seen,
        ),
{
}

/// From the first key on that is not selected, nothing is added.
proof fn lemma_no_more_keys(
    s: SchemaView,
    path: Seq<char>,
    name: Seq<char>,
    list: usize,
    keys: Seq<(Seq<char>, Seq<char>)>,
    j: int,
    seen: Seq<Item>,
)
    requires
        0 <= j <= s.nodes[list as int].keys.len(),
        forall|k: int|
            j <= k < s.nodes[list as int].keys.len() ==> selected(
                keys,
                #[trigger] s.nodes[list as int].keys[k],
                0,
            ) is None,
    ensures
        keys_encoded(s, path, name, list, keys, j, seen) == Ok::<Seq<Item>, Seq<char>>(seen),
    decreases s.nodes[list as int].keys.len() - j,
{
    if j < s.nodes[list as int].keys.len() {
        lemma_key_none(s, path, name, list, keys, j, seen);
        lemma_no_more_keys(s, path, name, list, keys, j + 1, seen);
    }
}

/// The selected keys of a list, from the `j`-th on, are encoded one by one.
proof fn lemma_keys_made(
    s: SchemaView,
    path: Seq<char>,
    name: Seq<char>,
    list: usize,
    keys: Seq<(Seq<char>, Seq<char>)>,
    j: int,
    seen: Seq<Item>,
)
    requires
        0 <= j <= s.nodes[list as int].keys.len(),
        seen.len() == j,
        keys_encoded(s, path, name, list, keys, j, seen) is Ok,
        key_short(path, keys),
        forall|k: int|
            j + leading(keys, s.nodes[list as int].keys, j) <= k < s.nodes[list as int].keys.len()
                ==> selected(keys, #[trigger] s.nodes[list as int].keys[k], 0) is None,
        forall|k: int| 0 <= k < j ==> key_made(s, list, keys, k, #[trigger] seen[k]),
    ensures
        ({
            let items = keys_encoded(s, path, name, list, keys, j, seen)->Ok_0;
            &&& items.len() == j + leading(keys, s.nodes[list as int].keys, j)
            &&& forall|k: int|
                0 <= k < items.len() ==> key_made(s, list, keys, k, #[trigger] items[k])
        }),
    decreases s.nodes[list as int].keys.len() - j,
{
    let wanted = s.nodes[list as int].keys;
    if j < wanted.len() && selected(keys, wanted[j], 0) is Some {
        let item = lemma_key_one(s, path, name, list, keys, j, seen);
        let next = seen.push(item);
        assert forall|k: int| 0 <= k < j + 1 implies key_made(
            s,
            list,
            keys,
            k,
            #[trigger] next[k],
        ) by {
            if k < j {
                assert(next[k] == seen[k]);
            }
        }
        lemma_keys_made(s, path, name, list, keys, j + 1, next);
    } else {
        lemma_no_more_keys(s, path, name, list, keys, j, seen);
    }
}

/// The number of leading keys is no greater than that of the keys.
proof fn lemma_leading(keys: Seq<(Seq<char>, Seq<char>)>, wanted: Seq<Seq<char>>, j: int)
    requires
        0 <= j <= wanted.len(),
    ensures
        leading(keys, wanted, j) <= wanted.len() - j,
    decreases wanted.len() - j,
{
    if j < wanted.len() {
        lemma_leading(keys, wanted, j + 1);
    }
}

/// A key that comes back reads back.
proof fn lemma_key_fits(
    s: SchemaView,
    list: usize,
    keys: Seq<(Seq<char>, Seq<char>)>,
    j: int,
    item: Item,
    last: bool,
    d: Seq<DecimalView>,
)
    requires
        0 <= j < s.nodes[list as int].keys.len(),
        key_made(s, list, keys, j, item),
        selected_fit(s, list, keys, last, d),
    ensures
        key_reads_back(s, key_id(s, list, j), item, d),
{
    let wanted = s.nodes[list as int].keys;
    let raw = selected(keys, wanted[j], 0)->0;
    let id = key_id(s, list, j);
    reveal(key_made);
    assert(key_fits(s, list, j, raw, last, d));
    assert(key_known(s, list, j));
    if key_is_plain(s, id, raw) {
        law_plain_key_reads_back(s, id, raw, item, d);
    }
}

/// A key that is a text or truth value or whole number of at most 32 bits,
/// without brackets, reads back.
pub proof fn law_plain_key_reads_back(
    s: SchemaView,
    id: usize,
    raw: Seq<char>,
    item: Item,
    d: Seq<DecimalView>,
)
    requires
        key_is_plain(s, id, raw),
        key_item(s, id, raw) == Ok::<Item, Seq<char>>(item),
    ensures
        key_reads_back(s, id, item, d),
{
    let v = key_tree(s, id, raw)->Ok_0;
    let g = governing(s, id);
    let b = governing_builtin(s, id);
    if b == Builtin::String || b == Builtin::Boolean {
        law_plain_value_reads_back(s, g, v, false, d);
    } else {
        let n = v->Integer_0;
        lemma_key_number(s, id, raw, item);
        law_whole_number_reads_back(s, g, n, false, d);
    }
    law_value_reads_back(s, id, v, d);
    law_key_reads_back(s, id, v, d, item);
}

/// The number of a key that is encoded fits a signed number of 64 bits.
proof fn lemma_key_number(s: SchemaView, id: usize, raw: Seq<char>, item: Item)
    requires
        key_is_plain(s, id, raw),
        is_narrow(governing_builtin(s, id)),
        key_tree(s, id, raw) is Ok,
        value_encoded(s, id, key_tree(s, id, raw)->Ok_0, false) == Ok::<Item, Seq<char>>(item),
    ensures
        key_tree(s, id, raw)->Ok_0 is Integer,
        i64::MIN <= key_tree(s, id, raw)->Ok_0->Integer_0 <= i64::MAX,
        key_tree(s, id, raw)->Ok_0->Integer_0 >= 0 || governing_builtin(s, id) == Builtin::Int8
            || governing_builtin(s, id) == Builtin::Int16 || governing_builtin(s, id)
            == Builtin::Int32,
{
    if raw.len() > 0 && raw[0] == '-' {
        lemma_no_digits(raw, 0);
    }
}

/// Whether the `j`-th key of a list reads back.
#[verifier::opaque]
spec fn reads_at(s: SchemaView, list: usize, j: int, item: Item, d: Seq<DecimalView>) -> bool {
    key_reads_back(s, key_id(s, list, j), item, d)
}

/// The selector that is shown for the `j`-th key of a list with a data item.
#[verifier::opaque]
spec fn pair_of(s: SchemaView, list: usize, j: int, item: Item, d: Seq<DecimalView>) -> (
    Seq<char>,
    Seq<char>,
) {
    (
        s.nodes[list as int].keys[j],
        key_shown(value_decoded(s, key_id(s, list, j), item, false, d)->Ok_0),
    )
}

/// The keys of a list, from the `j`-th on, are shown and read back.
proof fn lemma_keys_back(
    s: SchemaView,
    v: Item,
    list: usize,
    j: int,
    k: int,
    g: int,
    d: Seq<DecimalView>,
    text: Seq<char>,
)
    requires
        0 <= j <= g <= s.nodes[list as int].keys.len(),
        1 <= k,
        j < g ==> v is Array && k + (g - j) <= v->Array_0.len(),
        g == s.nodes[list as int].keys.len() || k + (g - j) == path_len(v),
        forall|i: int|
            0 <= i <= g && i < s.nodes[list as int].keys.len() ==> #[trigger] key_known(s, list, i),
        forall|i: int|
            j <= i < g ==> #[trigger] reads_at(s, list, i, v->Array_0[k + (i - j)], d),
    ensures
        keys_shown(s, v, list, j, k, d, text) matches Ok((_, after)) && after == k + (g - j),
        keys_read_back(s, v, list, j, k, d),
        pairs_shown(s, v, list, j, k, d).len() == g - j,
        forall|i: int|
            0 <= i < g - j ==> #[trigger] pairs_shown(s, v, list, j, k, d)[i] == pair_of(
                s,
                list,
                j + i,
                v->Array_0[k + i],
                d,
            ),
    decreases g - j,
{
    let wanted = s.nodes[list as int].keys;
    if j < g {
        let a = v->Array_0;
        assert(key_known(s, list, j));
        let t = key_id(s, list, j);
        assert(reads_at(s, list, j, a[k + (j - j)], d));
        let tree = value_decoded(s, t, a[k], false, d)->Ok_0;
        let next = text + ("["@ + wanted[j] + "='"@ + key_shown(tree)
            + "']"@);
        assert forall|i: int| j + 1 <= i < g implies #[trigger] reads_at(
            s,
            list,
            i,
            a[k + 1 + (i - (j + 1))],
            d,
        ) by {
            assert(k + 1 + (i - (j + 1)) == k + (i - j));
            assert(reads_at(s, list, i, a[k + (i - j)], d));
        }
        lemma_keys_back(s, v, list, j + 1, k + 1, g, d, next);
        lemma_shown_one(s, v, list, j, k, d, text);
        let pairs = pairs_shown(s, v, list, j, k, d);
        let rest = pairs_shown(s, v, list, j + 1, k + 1, d);
        assert forall|i: int| 0 <= i < g - j implies #[trigger] pairs[i] == pair_of(
            s,
            list,
            j + i,
            a[k + i],
            d,
        ) by {
            if i > 0 {
                assert(pairs[i] == rest[i - 1]);
                assert(rest[i - 1] == pair_of(s, list, j + 1 + (i - 1), a[k + 1 + (i - 1)], d));
            }
        }
    } else {
        if j < wanted.len() {
            assert(key_known(s, list, j));
        }
    }
}

/// One key is shown, then the others.
proof fn lemma_shown_one(
    s: SchemaView,
    v: Item,
    list: usize,
    j: int,
    k: int,
    d: Seq<DecimalView>,
    text: Seq<char>,
)
    requires
        0 <= j < s.nodes[list as int].keys.len(),
        key_known(s, list, j),
        v is Array,
        0 <= k < v->Array_0.len(),
        reads_at(s, list, j, v->Array_0[k], d),
    ensures
        ({
            let tree = value_decoded(
                s,
                key_id(s, list, j),
                v->Array_0[k],
                false,
                d,
            )->Ok_0;
            keys_shown(s, v, list, j, k, d, text) == keys_shown(
                s,
                v,
                list,
                j + 1,
                k + 1,
                d,
                text + ("["@ + s.nodes[list as int].keys[j] + "='"@
                    + key_shown(tree) + "']"@),
            )
        }),
        keys_read_back(s, v, list, j, k, d) == keys_read_back(s, v, list, j + 1, k + 1, d),
        pairs_shown(s, v, list, j, k, d) == seq![
            pair_of(s, list, j, v->Array_0[k], d),
        ] + pairs_shown(s, v, list, j + 1, k + 1, d),
{
    reveal(pair_of);
    reveal(reads_at);
}

/// The keys in an encoded path.
spec fn items_of(v: Item) -> Seq<Item> {
    match v {
        Item::Array(a) => a.subrange(1, a.len() as int),
        _ => Seq::empty(),
    }
}

/// The keys that were seen on the way are the first ones of an encoded path.
proof fn lemma_seen_first(
    s: SchemaView,
    path: Seq<char>,
    parts: Seq<Seq<char>>,
    i: int,
    cur: usize,
    sid: int,
    seen: Seq<Item>,
)
    requires
        0 <= i <= parts.len(),
        path_walked(s, path, parts, i, cur, sid, seen) is Ok,
    ensures
        ({
            let item = path_walked(s, path, parts, i, cur, sid, seen)->Ok_0.1;
            &&& item is Array || item is Integer
            &&& item is Array ==> item->Array_0.len() > 1 && item->Array_0[0] is Integer
            &&& items_of(item).len() >= seen.len()
            &&& items_of(item).subrange(0, seen.len() as int) == seen
            &&& path_len(item) == 1 + items_of(item).len()
            &&& i == parts.len() ==> items_of(item) == seen
        }),
    decreases parts.len() - i,
{
    if i < parts.len() {
        let name = segment_name(parts[i]);
        let keys = selectors_from(parts[i], index_from(parts[i], '[', 0))->Ok_0;
        let child = child_of(s, cur, name)->0;
        let n = s.nodes[child as int].sid->0;
        let more = segment_encoded(s, path, name, child, keys)->Ok_0;
        lemma_one_step(s, path, parts, i, cur, sid, seen);
        lemma_seen_first(s, path, parts, i + 1, child, n as int, seen + more);
        let item = path_walked(s, path, parts, i, cur, sid, seen)->Ok_0.1;
        let all = items_of(item);
        assert(all.subrange(0, seen.len() as int) =~= seen) by {
            assert forall|k: int| 0 <= k < seen.len() implies all[k] == seen[k] by {
                assert(all.subrange(0, (seen + more).len() as int)[k] == (seen + more)[k]);
            }
        }
    } else {
        let item = path_item(sid, seen);
        if seen.len() > 0 {
            let a = seq![Item::Integer(sid)] + seen;
            assert(item == Item::Array(a));
            assert(a.subrange(1, a.len() as int) =~= seen);
        } else {
            assert(seen =~= Seq::empty());
        }
        assert(items_of(item) =~= seen);
        assert(seen.subrange(0, seen.len() as int) =~= seen);
    }
}

/// Whether a node is reached with the first keys of an encoded path, at its
/// end or on the way.
#[verifier::opaque]
spec fn reached(
    s: SchemaView,
    v: Item,
    cur: usize,
    k: int,
    d: Seq<DecimalView>,
    last: bool,
) -> bool {
    if cur == s.root {
        k == 1
    } else {
        &&& s.root < cur < s.nodes.len()
        &&& connected(s, cur)
        &&& way_reads_back(s, v, cur, d)
        &&& way_fits(s, v, cur, d, last)
        &&& path_to(s, v, cur, 1, d) is Ok
        &&& path_to(s, v, cur, 1, d)->Ok_0.1 == k
    }
}

/// The child with a name is a child.
proof fn lemma_child_is_child(
    nodes: Seq<NodeView>,
    children: Seq<usize>,
    name: Seq<char>,
    from: int,
)
    requires
        0 <= from,
    ensures
        child_named(nodes, children, name, from) matches Some(c) ==> exists|k: int|
            from <= k < children.len() && #[trigger] children[k] == c,
    decreases children.len() - from,
{
    if from < children.len() {
        if nodes[children[from] as int].name == name {
            assert(children[from] == children[from]);
        } else {
            lemma_child_is_child(nodes, children, name, from + 1);
        }
    }
}

/// A child in the tree of data has its parent.
proof fn lemma_tree_child(s: SchemaView, cur: usize, name: Seq<char>)
    requires
        tree_of_data(s),
        s.nodes.len() <= usize::MAX,
        s.root <= cur < s.nodes.len(),
        child_of(s, cur, name) is Some,
    ensures
        ({
            let c = child_of(s, cur, name)->0;
            &&& s.root < c < s.nodes.len()
            &&& s.nodes[c as int].parent == Some(cur)
            &&& cur < c
            &&& s.nodes[c as int].name == name
            &&& child_of(s, cur, s.nodes[c as int].name) == Some(c)
        }),
{
    let children = s.nodes[cur as int].children;
    lemma_child_is_child(s.nodes, children, name, 0);
    lemma_child_name(s.nodes, children, name, 0);
    let c = child_of(s, cur, name)->0;
    let k = choose|k: int| 0 <= k < children.len() && #[trigger] children[k] == c;
    assert(s.nodes[cur as int].children[k] == c);
    assert(one_tree(s.nodes, s.root as int));
    assert(s.nodes[c as int].parent == Some(cur));
}

/// One segment further, the next node is reached.
proof fn lemma_reached_step(
    s: SchemaView,
    v: Item,
    cur: usize,
    k: int,
    child: usize,
    g: int,
    d: Seq<DecimalView>,
    last: bool,
)
    requires
        tree_of_data(s),
        s.nodes[child as int].kw != "module"@,
        s.nodes.len() <= usize::MAX,
        s.root <= cur < s.nodes.len(),
        reached(s, v, cur, k, d, false),
        1 <= k,
        child_of(s, cur, s.nodes[child as int].name) == Some(child),
        s.nodes[child as int].sid is Some,
        0 <= g <= s.nodes[child as int].keys.len(),
        g > 0 ==> v is Array && k + g <= v->Array_0.len(),
        g == s.nodes[child as int].keys.len() || k + g == path_len(v),
        forall|i: int|
            0 <= i <= g && i < s.nodes[child as int].keys.len() ==> #[trigger] key_known(
                s,
                child,
                i,
            ),
        forall|i: int| 0 <= i < g ==> #[trigger] reads_at(s, child, i, v->Array_0[k + i], d),
        segment_fits(
            s.nodes[child as int].name,
            pairs_shown(s, v, child, 0, k, d),
            last,
        ),
        chosen(pairs_shown(s, v, child, 0, k, d), s.nodes[child as int].keys),
    ensures
        reached(s, v, child, k + g, d, last),
{
    reveal(reached);
    lemma_tree_child(s, cur, s.nodes[child as int].name);
    let n = s.nodes[child as int];
    let above = path_to(s, v, cur, 1, d);
    if cur == s.root {
        assert(above == Ok::<(Seq<char>, int), Seq<char>>((Seq::empty(), 1)));
    }
    let text = above->Ok_0.0 + "/"@ + n.name;
    assert forall|i: int| 0 <= i < g implies #[trigger] reads_at(
        s,
        child,
        i,
        v->Array_0[k + (i - 0)],
        d,
    ) by {
        assert(reads_at(s, child, i, v->Array_0[k + i], d));
    }
    lemma_keys_back(s, v, child, 0, k, g, d, text);
    assert(path_to(s, v, child, 1, d) == keys_shown(s, v, child, 0, k, d, text));
}

/// The first place of a character is the first one.
proof fn lemma_before(t: Seq<char>, c: char, from: int)
    requires
        0 <= from <= t.len(),
    ensures
        from <= index_from(t, c, from) <= t.len(),
        forall|k: int| from <= k < index_from(t, c, from) ==> t[k] != c,
        index_from(t, c, from) < t.len() ==> t[index_from(t, c, from)] == c,
    decreases t.len() - from,
{
    if from < t.len() && t[from] != c {
        lemma_before(t, c, from + 1);
    }
}

/// The keys in selectors hold no equals sign and no closing bracket.
proof fn lemma_selector_names(seg: Seq<char>, from: int)
    requires
        0 <= from <= seg.len(),
        selectors_from(seg, from) is Ok,
    ensures
        forall|i: int|
            0 <= i < selectors_from(seg, from)->Ok_0.len() ==> !(#[trigger] selectors_from(
                seg,
                from,
            )->Ok_0[i]).0.contains(']') && !selectors_from(seg, from)->Ok_0[i].0.contains('='),
    decreases seg.len() - from,
{
    let start = index_from(seg, '[', from);
    lemma_before(seg, '[', from);
    if start < seg.len() {
        lemma_before(seg, ']', start);
        let end = index_from(seg, ']', start);
        let inner = seg.subrange(start + 1, end);
        lemma_before(inner, '=', 0);
        let eq = index_from(inner, '=', 0);
        let key = inner.subrange(0, eq);
        lemma_selector_names(seg, end + 1);
        let all = selectors_from(seg, from)->Ok_0;
        let rest = selectors_from(seg, end + 1)->Ok_0;
        assert(!key.contains(']') && !key.contains('=')) by {
            assert forall|k: int| 0 <= k < key.len() implies key[k] != ']' && key[k] != '=' by {
                assert(key[k] == inner[k]);
                assert(inner[k] == seg[start + 1 + k]);
            }
        }
        assert forall|i: int| 0 <= i < all.len() implies !(#[trigger] all[i]).0.contains(']')
            && !all[i].0.contains('=') by {
            if i > 0 {
                assert(all[i] == rest[i - 1]);
            }
        }
    }
}

/// A name in front of selectors is selected.
proof fn lemma_selects(keys: Seq<(Seq<char>, Seq<char>)>, i: int, from: int)
    requires
        0 <= from <= i < keys.len(),
    ensures
        selected(keys, keys[i].0, from) is Some,
    decreases i - from,
{
    if from < i {
        lemma_selects(keys, i, from + 1);
    }
}

/// A text that is found is one of some.
proof fn lemma_found_at(all: Seq<Seq<char>>, t: Seq<char>, from: int)
    requires
        0 <= from,
    ensures
        find_text(all, t, from) is Some ==> exists|j: int|
            from <= j < all.len() && #[trigger] all[j] == t,
    decreases all.len() - from,
{
    if from < all.len() {
        if all[from] == t {
            assert(all[from] == t);
        } else {
            lemma_found_at(all, t, from + 1);
        }
    }
}

/// In the segments of a path no slash stands outside brackets, and none is
/// empty.
proof fn lemma_parts_hold(path: Seq<char>, i: int, depth: int, start: int)
    requires
        0 <= start <= i <= path.len(),
        depth_after(path.subrange(start, i), 0, 0) == Some(depth),
    ensures
        forall|k: int|
            0 <= k < parts_from(path, i, depth, start).len() ==> depth_after(
                #[trigger] parts_from(path, i, depth, start)[k],
                0,
                0,
            ) is Some && parts_from(path, i, depth, start)[k].len() > 0,
    decreases path.len() - i,
{
    if i < path.len() {
        let a = path.subrange(start, i);
        let b = seq![path[i]];
        let next = if path[i] == '[' {
            depth + 1
        } else if path[i] == ']' {
            depth - 1
        } else {
            depth
        };
        if path[i] == '/' && depth == 0 {
            assert(path.subrange(i + 1, i + 1) =~= Seq::empty());
            lemma_parts_hold(path, i + 1, 0, i + 1);
            let all = parts_from(path, i, depth, start);
            let rest = parts_from(path, i + 1, 0, i + 1);
            assert forall|k: int| 0 <= k < all.len() implies depth_after(#[trigger] all[k], 0, 0)
                is Some && all[k].len() > 0 by {
                if start < i {
                    if k > 0 {
                        assert(all[k] == rest[k - 1]);
                    }
                } else {
                    assert(all[k] == rest[k]);
                }
            }
        } else {
            assert(path.subrange(start, i + 1) =~= a + b);
            lemma_depth_joined(a, b, 0);
            assert(depth_after(b, 1, next) == Some(next));
            assert(depth_after(b, 0, depth) == Some(next));
            lemma_parts_hold(path, i + 1, next, start);
        }
    } else {
        assert(path.subrange(start, i) =~= path.subrange(start, path.len() as int));
    }
}

/// A segment begins with its name.
proof fn lemma_name_fits(part: Seq<char>)
    requires
        part.len() > 0,
        depth_after(part, 0, 0) is Some,
    ensures
        !segment_name(part).contains('['),
        depth_after(segment_name(part), 0, 0) is Some,
        segment_name(part).len() == 0 ==> index_from(part, '[', 0) == 0 && part[0] == '[',
{
    lemma_before(part, '[', 0);
    let n = index_from(part, '[', 0);
    let name = segment_name(part);
    let rest = part.subrange(n, part.len() as int);
    assert(part =~= name + rest);
    lemma_depth_joined(name, rest, 0);
    assert forall|k: int| 0 <= k < name.len() implies name[k] != '[' by {
        assert(name[k] == part[k]);
    }
}

/// A segment without a name selects a key.
proof fn lemma_nameless(
    s: SchemaView,
    path: Seq<char>,
    part: Seq<char>,
    child: usize,
    keys: Seq<(Seq<char>, Seq<char>)>,
)
    requires
        part.len() > 0,
        part[0] == '[',
        index_from(part, '[', 0) == 0,
        selectors_from(part, 0) == Ok::<Seq<(Seq<char>, Seq<char>)>, Seq<char>>(keys),
        segment_encoded(s, path, segment_name(part), child, keys) is Ok,
        only_leading(keys, s.nodes[child as int].keys),
    ensures
        leading(keys, s.nodes[child as int].keys, 0) > 0,
{
    let wanted = s.nodes[child as int].keys;
    lemma_before(part, ']', 0);
    assert(keys.len() > 0);
    assert(wanted.len() > 0);
    assert(stray_selector(keys, wanted, 0) is None);
    assert(find_text(wanted, keys[0].0, 0) is Some);
    lemma_found_at(wanted, keys[0].0, 0);
    let j = choose|j: int| 0 <= j < wanted.len() && #[trigger] wanted[j] == keys[0].0;
    lemma_selects(keys, 0, 0);
    assert(selected(keys, wanted[j], 0) is Some);
}

/// The first keys of a list that are shown are chosen, if equal names have
/// equal values.
proof fn lemma_chosen(pairs: Seq<(Seq<char>, Seq<char>)>, wanted: Seq<Seq<char>>)
    requires
        pairs.len() <= wanted.len(),
        forall|i: int| 0 <= i < pairs.len() ==> (#[trigger] pairs[i]).0 == wanted[i],
        forall|i: int, j: int|
            0 <= i < pairs.len() && 0 <= j < pairs.len() && wanted[i] == wanted[j]
                ==> (#[trigger] pairs[i]).1 == (#[trigger] pairs[j]).1,
        forall|i: int, j: int|
            0 <= i < pairs.len() <= j < wanted.len() ==> #[trigger] wanted[i]
                != #[trigger] wanted[j],
    ensures
        chosen(pairs, wanted),
{
    assert forall|j: int| 0 <= j < wanted.len() implies selected(pairs, #[trigger] wanted[j], 0)
        == (if j < pairs.len() {
        Some(pairs[j].1)
    } else {
        None
    }) by {
        lemma_selected_is_there(pairs, wanted[j], 0);
        if j < pairs.len() {
            lemma_selects(pairs, j, 0);
        }
    }
}

/// The leading keys are selected.
proof fn lemma_leading_selected(
    keys: Seq<(Seq<char>, Seq<char>)>,
    wanted: Seq<Seq<char>>,
    j: int,
    x: int,
)
    requires
        0 <= j <= x < j + leading(keys, wanted, j),
        x < wanted.len(),
    ensures
        selected(keys, wanted[x], 0) is Some,
    decreases x - j,
{
    if j < x {
        lemma_leading_selected(keys, wanted, j + 1, x);
    }
}

/// What one selected key is shown as.
proof fn lemma_pair_fits(
    s: SchemaView,
    list: usize,
    keys: Seq<(Seq<char>, Seq<char>)>,
    j: int,
    item: Item,
    last: bool,
    d: Seq<DecimalView>,
)
    requires
        0 <= j < s.nodes[list as int].keys.len(),
        key_made(s, list, keys, j, item),
        selected_fit(s, list, keys, last, d),
    ensures
        selected(keys, s.nodes[list as int].keys[j], 0) is Some,
        key_known(s, list, j),
        ({
            let n = s.nodes[list as int];
            let pair = pair_of(s, list, j, item, d);
            &&& pair.0 == n.keys[j]
            &&& !last ==> !pair.0.contains('[')
            &&& n.name.contains(']') ==> !pair.0.contains('/') && !pair.1.contains('/')
        }),
{
    lemma_key_fits(s, list, keys, j, item, last, d);
    reveal(key_made);
    reveal(pair_of);
    let raw = selected(keys, s.nodes[list as int].keys[j], 0)->0;
    assert(key_fits(s, list, j, raw, last, d));
    assert(key_item(s, key_id(s, list, j), raw) == Ok::<Item, Seq<char>>(item));
}

/// Keys with the same name are shown in the same way.
proof fn lemma_pair_same(
    s: SchemaView,
    list: usize,
    keys: Seq<(Seq<char>, Seq<char>)>,
    i: int,
    j: int,
    a: Item,
    b: Item,
    d: Seq<DecimalView>,
)
    requires
        key_made(s, list, keys, i, a),
        key_made(s, list, keys, j, b),
        s.nodes[list as int].keys[i] == s.nodes[list as int].keys[j],
    ensures
        pair_of(s, list, i, a, d) == pair_of(s, list, j, b, d),
{
    reveal(key_made);
    reveal(pair_of);
}

/// What is shown of a segment can stand in a path.
proof fn lemma_segment_shown(
    s: SchemaView,
    path: Seq<char>,
    part: Seq<char>,
    child: usize,
    keys: Seq<(Seq<char>, Seq<char>)>,
    more: Seq<Item>,
    pairs: Seq<(Seq<char>, Seq<char>)>,
    d: Seq<DecimalView>,
    last: bool,
)
    requires
        part.len() > 0,
        depth_after(part, 0, 0) is Some,
        selectors_from(part, index_from(part, '[', 0)) == Ok::<
            Seq<(Seq<char>, Seq<char>)>,
            Seq<char>,
        >(keys),
        segment_name(part) == s.nodes[child as int].name,
        segment_encoded(s, path, segment_name(part), child, keys) is Ok,
        only_leading(keys, s.nodes[child as int].keys),
        selected_fit(s, child, keys, last, d),
        !last ==> !s.nodes[child as int].name.contains(']'),
        more.len() == leading(keys, s.nodes[child as int].keys, 0),
        more.len() <= s.nodes[child as int].keys.len(),
        pairs.len() == more.len(),
        forall|i: int|
            0 <= i < more.len() ==> #[trigger] pairs[i] == pair_of(s, child, i, more[i], d),
        forall|x: int| 0 <= x < more.len() ==> key_made(s, child, keys, x, #[trigger] more[x]),
    ensures
        segment_fits(s.nodes[child as int].name, pairs, last),
        chosen(pairs, s.nodes[child as int].keys),
{
    let n = s.nodes[child as int];
    let wanted = n.keys;
    lemma_name_fits(part);
    if n.name.len() == 0 {
        lemma_nameless(s, path, part, child, keys);
    }
    lemma_before(part, '[', 0);
    lemma_selector_names(part, index_from(part, '[', 0));
    assert forall|i: int| 0 <= i < pairs.len() implies (#[trigger] pairs[i]).0 == wanted[i]
        && !pairs[i].0.contains(']') && !pairs[i].0.contains('=') && (!last ==> !pairs[i].0.contains(
        '[',
    )) && (n.name.contains(']') ==> !pairs[i].0.contains('/') && !pairs[i].1.contains('/')) by {
        assert(key_made(s, child, keys, i, more[i]));
        lemma_pair_fits(s, child, keys, i, more[i], last, d);
        lemma_selected_is_there(keys, wanted[i], 0);
        let x = choose|x: int| 0 <= x < keys.len() && (#[trigger] keys[x]).0 == wanted[i];
        assert(selectors_from(part, index_from(part, '[', 0))->Ok_0[x] == keys[x]);
    }
    assert forall|i: int, j: int|
        0 <= i < pairs.len() && 0 <= j < pairs.len() && wanted[i] == wanted[j] implies (
    #[trigger] pairs[i]).1 == (#[trigger] pairs[j]).1 by {
        assert(key_made(s, child, keys, i, more[i]));
        assert(key_made(s, child, keys, j, more[j]));
        lemma_pair_same(s, child, keys, i, j, more[i], more[j], d);
    }
    assert forall|i: int, j: int| 0 <= i < pairs.len() <= j < wanted.len() implies
        #[trigger] wanted[i] != #[trigger] wanted[j] by {
        lemma_leading_selected(keys, wanted, 0, i);
    }
    lemma_chosen(pairs, wanted);
}

/// The first keys of a list are known.
proof fn lemma_keys_known(
    s: SchemaView,
    child: usize,
    keys: Seq<(Seq<char>, Seq<char>)>,
    more: Seq<Item>,
    last: bool,
    d: Seq<DecimalView>,
)
    requires
        selected_fit(s, child, keys, last, d),
        more.len() <= s.nodes[child as int].keys.len(),
        more.len() < s.nodes[child as int].keys.len() ==> key_known(s, child, more.len() as int),
        forall|x: int| 0 <= x < more.len() ==> key_made(s, child, keys, x, #[trigger] more[x]),
    ensures
        forall|i: int|
            0 <= i <= more.len() && i < s.nodes[child as int].keys.len() ==> #[trigger] key_known(
                s,
                child,
                i,
            ),
{
    assert forall|i: int| 0 <= i <= more.len() && i < s.nodes[child as int].keys.len() implies
        #[trigger] key_known(s, child, i) by {
        if i < more.len() {
            assert(key_made(s, child, keys, i, more[i]));
            lemma_pair_fits(s, child, keys, i, more[i], last, d);
        }
    }
}

/// The values of selectors are shorter than their path.
proof fn lemma_short(path: Seq<char>, i: int)
    requires
        0 <= i < path_parts(path).len(),
        selectors_from(
            path_parts(path)[i],
            index_from(path_parts(path)[i], '[', 0),
        ) is Ok,
    ensures
        key_short(
            path,
            selectors_from(path_parts(path)[i], index_from(path_parts(path)[i], '[', 0))->Ok_0,
        ),
{
    crate::yang::values::lemma_selector_values_short(path, i);
}

/// Where a key stands in an encoded path.
proof fn lemma_key_place(item: Item, seen: Seq<Item>, more: Seq<Item>, x: int)
    requires
        item is Array ==> item->Array_0.len() > 1,
        items_of(item).len() >= (seen + more).len(),
        items_of(item).subrange(0, (seen + more).len() as int) == seen + more,
        0 <= x < more.len(),
    ensures
        item is Array,
        1 + seen.len() + more.len() <= item->Array_0.len(),
        item->Array_0[1 + seen.len() as int + x] == more[x],
{
    let all = items_of(item);
    let y = seen.len() as int + x;
    assert(all.subrange(0, (seen + more).len() as int)[y] == (seen + more)[y]);
    assert(all[y] == item->Array_0[1 + y]);
}

/// The keys that a segment selects read back.
proof fn lemma_given_keys(
    s: SchemaView,
    item: Item,
    child: usize,
    keys: Seq<(Seq<char>, Seq<char>)>,
    seen: Seq<Item>,
    more: Seq<Item>,
    last: bool,
    d: Seq<DecimalView>,
)
    requires
        item is Array ==> item->Array_0.len() > 1,
        more.len() <= s.nodes[child as int].keys.len(),
        selected_fit(s, child, keys, last, d),
        forall|x: int| 0 <= x < more.len() ==> key_made(s, child, keys, x, #[trigger] more[x]),
        items_of(item).len() >= (seen + more).len(),
        items_of(item).subrange(0, (seen + more).len() as int) == seen + more,
    ensures
        more.len() > 0 ==> item is Array && 1 + seen.len() + more.len() <= item->Array_0.len(),
        forall|x: int|
            0 <= x < more.len() ==> #[trigger] reads_at(
                s,
                child,
                x,
                item->Array_0[1 + seen.len() as int + x],
                d,
            ),
        forall|x: int|
            0 <= x < more.len() ==> item->Array_0[1 + seen.len() as int + x] == #[trigger] more[x],
{
    assert forall|x: int| 0 <= x < more.len() implies item->Array_0[1 + seen.len() as int + x]
        == #[trigger] more[x] by {
        lemma_key_place(item, seen, more, x);
    }
    if more.len() > 0 {
        lemma_key_place(item, seen, more, 0);
    }
    assert forall|x: int| 0 <= x < more.len() implies #[trigger] reads_at(
        s,
        child,
        x,
        item->Array_0[1 + seen.len() as int + x],
        d,
    ) by {
        reveal(reads_at);
        lemma_key_place(item, seen, more, x);
        assert(key_made(s, child, keys, x, more[x]));
        lemma_key_fits(s, child, keys, x, more[x], last, d);
    }
}

/// Each segment of a path leads to a node that is reached.
#[verifier::rlimit(60)]
proof fn lemma_reached_next(
    s: SchemaView,
    path: Seq<char>,
    i: int,
    cur: usize,
    sid: int,
    seen: Seq<Item>,
    item: Item,
    d: Seq<DecimalView>,
)
    requires
        tree_of_data(s),
        s.nodes.len() <= usize::MAX,
        0 <= i < path_parts(path).len(),
        s.root <= cur < s.nodes.len(),
        path_walked(s, path, path_parts(path), i, cur, sid, seen) is Ok,
        path_walked(s, path, path_parts(path), i, cur, sid, seen)->Ok_0.1 == item,
        keys_given(s, path_parts(path), i, cur, d),
        reached(s, item, cur, 1 + seen.len() as int, d, false),
    ensures
        ({
            let parts = path_parts(path);
            let name = segment_name(parts[i]);
            let keys = selectors_from(parts[i], index_from(parts[i], '[', 0))->Ok_0;
            let child = child_of(s, cur, name)->0;
            let more = segment_encoded(s, path, name, child, keys)->Ok_0;
            reached(s, item, child, 1 + (seen + more).len() as int, d, i + 1 == parts.len())
        }),
{
    let parts = path_parts(path);
    let last = i + 1 == parts.len();
    lemma_seen_first(s, path, parts, i, cur, sid, seen);
    let name = segment_name(parts[i]);
    let keys = selectors_from(parts[i], index_from(parts[i], '[', 0))->Ok_0;
    let child = child_of(s, cur, name)->0;
    let n = s.nodes[child as int].sid->0;
    let more = segment_encoded(s, path, name, child, keys)->Ok_0;
    lemma_one_step(s, path, parts, i, cur, sid, seen);
    lemma_segment_ok(s, path, parts, i, cur, sid, seen);
    lemma_seen_first(s, path, parts, i + 1, child, n as int, seen + more);
    lemma_tree_child(s, cur, name);
    lemma_short(path, i);
    let g = lemma_segment_keys(s, path, name, child, keys);
    assert(path.subrange(0, 0) =~= Seq::empty());
    lemma_parts_hold(path, 0, 0, 0);
    lemma_reached_more(s, path, parts[i], cur, child, keys, seen, more, item, d, last);
}

/// A segment leads to a node that is reached.
#[verifier::rlimit(40)]
proof fn lemma_reached_more(
    s: SchemaView,
    path: Seq<char>,
    part: Seq<char>,
    cur: usize,
    child: usize,
    keys: Seq<(Seq<char>, Seq<char>)>,
    seen: Seq<Item>,
    more: Seq<Item>,
    item: Item,
    d: Seq<DecimalView>,
    last: bool,
)
    requires
        tree_of_data(s),
        s.nodes[child as int].kw != "module"@,
        s.nodes.len() <= usize::MAX,
        s.root <= cur < s.nodes.len(),
        reached(s, item, cur, 1 + seen.len() as int, d, false),
        child_of(s, cur, s.nodes[child as int].name) == Some(child),
        s.nodes[child as int].sid is Some,
        part.len() > 0,
        depth_after(part, 0, 0) is Some,
        selectors_from(part, index_from(part, '[', 0)) == Ok::<
            Seq<(Seq<char>, Seq<char>)>,
            Seq<char>,
        >(keys),
        segment_name(part) == s.nodes[child as int].name,
        segment_encoded(s, path, segment_name(part), child, keys) is Ok,
        only_leading(keys, s.nodes[child as int].keys),
        selected_fit(s, child, keys, last, d),
        !last ==> !s.nodes[child as int].name.contains(']'),
        more.len() == leading(keys, s.nodes[child as int].keys, 0),
        more.len() <= s.nodes[child as int].keys.len(),
        more.len() < s.nodes[child as int].keys.len() ==> key_known(s, child, more.len() as int),
        forall|x: int| 0 <= x < more.len() ==> key_made(s, child, keys, x, #[trigger] more[x]),
        item is Array ==> item->Array_0.len() > 1,
        items_of(item).len() >= (seen + more).len(),
        items_of(item).subrange(0, (seen + more).len() as int) == seen + more,
        more.len() == s.nodes[child as int].keys.len() || 1 + (seen + more).len() == path_len(item),
    ensures
        reached(s, item, child, 1 + (seen + more).len() as int, d, last),
{
    let k = 1 + seen.len() as int;
    let g = more.len() as int;
    lemma_given_keys(s, item, child, keys, seen, more, last, d);
    lemma_keys_known(s, child, keys, more, last, d);
    lemma_pairs_given(s, item, child, k, more, d);
    lemma_segment_shown(
        s,
        path,
        part,
        child,
        keys,
        more,
        pairs_shown(s, item, child, 0, k, d),
        d,
        last,
    );
    lemma_reached_step(s, item, cur, k, child, g, d, last);
}

/// The selectors that are shown for some keys.
proof fn lemma_pairs_given(
    s: SchemaView,
    v: Item,
    child: usize,
    k: int,
    more: Seq<Item>,
    d: Seq<DecimalView>,
)
    requires
        1 <= k,
        more.len() <= s.nodes[child as int].keys.len(),
        more.len() > 0 ==> v is Array && k + more.len() <= v->Array_0.len(),
        more.len() == s.nodes[child as int].keys.len() || k + more.len() == path_len(v),
        forall|i: int|
            0 <= i <= more.len() && i < s.nodes[child as int].keys.len() ==> #[trigger] key_known(
                s,
                child,
                i,
            ),
        forall|x: int| 0 <= x < more.len() ==> #[trigger] reads_at(s, child, x, v->Array_0[k + x], d),
        forall|x: int| 0 <= x < more.len() ==> v->Array_0[k + x] == #[trigger] more[x],
    ensures
        pairs_shown(s, v, child, 0, k, d).len() == more.len(),
        forall|i: int|
            0 <= i < more.len() ==> #[trigger] pairs_shown(s, v, child, 0, k, d)[i] == pair_of(
                s,
                child,
                i,
                more[i],
                d,
            ),
{
    let g = more.len() as int;
    assert forall|i: int| 0 <= i < g implies #[trigger] reads_at(
        s,
        child,
        i,
        v->Array_0[k + (i - 0)],
        d,
    ) by {
        assert(reads_at(s, child, i, v->Array_0[k + i], d));
    }
    lemma_keys_back(s, v, child, 0, k, g, d, Seq::empty());
    let pairs = pairs_shown(s, v, child, 0, k, d);
    assert forall|i: int| 0 <= i < more.len() implies #[trigger] pairs[i] == pair_of(
        s,
        child,
        i,
        more[i],
        d,
    ) by {
        assert(pairs[i] == pair_of(s, child, 0 + i, v->Array_0[k + i], d));
        assert(v->Array_0[k + i] == more[i]);
    }
}

/// From a node that is reached on, the node at the end of a path is reached.
proof fn lemma_reached_end(
    s: SchemaView,
    path: Seq<char>,
    i: int,
    cur: usize,
    sid: int,
    seen: Seq<Item>,
    item: Item,
    d: Seq<DecimalView>,
)
    requires
        tree_of_data(s),
        s.nodes.len() <= usize::MAX,
        0 <= i < path_parts(path).len(),
        s.root <= cur < s.nodes.len(),
        path_walked(s, path, path_parts(path), i, cur, sid, seen) is Ok,
        path_walked(s, path, path_parts(path), i, cur, sid, seen)->Ok_0.1 == item,
        keys_given(s, path_parts(path), i, cur, d),
        reached(s, item, cur, 1 + seen.len() as int, d, false),
    ensures
        ({
            let node = path_walked(s, path, path_parts(path), i, cur, sid, seen)->Ok_0.0;
            reached(s, item, node, path_len(item), d, true) && node != s.root
        }),
    decreases path_parts(path).len() - i,
{
    let parts = path_parts(path);
    let name = segment_name(parts[i]);
    let keys = selectors_from(parts[i], index_from(parts[i], '[', 0))->Ok_0;
    let child = child_of(s, cur, name)->0;
    let n = s.nodes[child as int].sid->0;
    let more = segment_encoded(s, path, name, child, keys)->Ok_0;
    lemma_one_step(s, path, parts, i, cur, sid, seen);
    lemma_segment_ok(s, path, parts, i, cur, sid, seen);
    lemma_tree_child(s, cur, name);
    lemma_reached_next(s, path, i, cur, sid, seen, item, d);
    if i + 1 < parts.len() {
        lemma_reached_end(s, path, i + 1, child, n as int, seen + more, item, d);
    } else {
        lemma_seen_first(s, path, parts, i + 1, child, n as int, seen + more);
    }
}

/// A path that leads somewhere has segments that can be encoded.
proof fn lemma_segment_ok(
    s: SchemaView,
    path: Seq<char>,
    parts: Seq<Seq<char>>,
    i: int,
    cur: usize,
    sid: int,
    seen: Seq<Item>,
)
    requires
        0 <= i < parts.len(),
        path_walked(s, path, parts, i, cur, sid, seen) is Ok,
    ensures
        selectors_from(parts[i], index_from(parts[i], '[', 0)) is Ok,
        child_of(s, cur, segment_name(parts[i])) is Some,
        segment_encoded(
            s,
            path,
            segment_name(parts[i]),
            child_of(s, cur, segment_name(parts[i]))->0,
            selectors_from(parts[i], index_from(parts[i], '[', 0))->Ok_0,
        ) is Ok,
{
}

/// The keys that a segment selects are the first ones of its list.
proof fn lemma_segment_keys(
    s: SchemaView,
    path: Seq<char>,
    name: Seq<char>,
    child: usize,
    keys: Seq<(Seq<char>, Seq<char>)>,
) -> (g: int)
    requires
        segment_encoded(s, path, name, child, keys) is Ok,
        key_short(path, keys),
        only_leading(keys, s.nodes[child as int].keys),
    ensures
        g == leading(keys, s.nodes[child as int].keys, 0),
        0 <= g <= s.nodes[child as int].keys.len(),
        segment_encoded(s, path, name, child, keys)->Ok_0.len() == g,
        forall|x: int|
            0 <= x < g ==> key_made(
                s,
                child,
                keys,
                x,
                #[trigger] segment_encoded(s, path, name, child, keys)->Ok_0[x],
            ),
{
    let wanted = s.nodes[child as int].keys;
    lemma_leading(keys, wanted, 0);
    if wanted.len() > 0 {
        lemma_keys_made(s, path, name, child, keys, 0, Seq::empty());
    }
    leading(keys, wanted, 0) as int
}

/// A path that leads to a node is decoded from its encoding, to a path that
/// leads to the same node and has the same encoding. It has to give every key
/// of each list that it passes, and the first keys or none of the list that it
/// ends at. The keys have to come back, as all texts, truth values and whole
/// numbers of at most 32 bits do that hold no brackets. The node has to be found
/// by its SID, as all are where SIDs are distinct. A path without segments is
/// one, too.
pub proof fn law_resolved_path_reads_back(s: SchemaView, path: Seq<char>, d: Seq<DecimalView>)
    requires
        tree_of_data(s),
        s.nodes.len() <= usize::MAX,
        path_encoded(s, path) is Ok,
        keys_given(s, path_parts(path), 0, s.root, d),
        found_by_sid(s, path_encoded(s, path)->Ok_0.0),
    ensures
        ({
            let (node, item) = path_encoded(s, path)->Ok_0;
            path_decoded(s, item, d) matches Ok((n, p)) && n == node && path_encoded(s, p) == Ok::<
                (usize, Item),
                Seq<char>,
            >((node, item))
        }),
{
    let parts = path_parts(path);
    let (node, item) = path_encoded(s, path)->Ok_0;
    if parts.len() == 0 {
        law_empty_path(s, path, d);
    } else {
        reveal(reached);
        lemma_reached_end(s, path, 0, s.root, 0, Seq::empty(), item, d);
        lemma_walk_ends(s, path, parts, 0, s.root, 0, Seq::empty());
        lemma_seen_first(s, path, parts, 0, s.root, 0, Seq::empty());
        assert(path_decoded(s, item, d) is Ok && path_decoded(s, item, d)->Ok_0.0 == node);
        lemma_walk_item(s, path, parts, 0, s.root, 0, Seq::empty());
        law_shown_path_reads_back(s, item, d);
    }
}

/// A path without segments leads to the top of all data, whose SID is nought,
/// and comes back as the empty path if the top is found by it.
pub proof fn law_empty_path(s: SchemaView, path: Seq<char>, d: Seq<DecimalView>)
    requires
        tree_of_data(s),
        path_parts(path).len() == 0,
    ensures
        path_encoded(s, path) == Ok::<(usize, Item), Seq<char>>((s.root, Item::Integer(0))),
        found_by_sid(s, s.root) ==> path_decoded(s, Item::Integer(0), d) == Ok::<
            (usize, Seq<char>),
            Seq<char>,
        >((s.root, Seq::empty())),
        path_encoded(s, Seq::empty()) == path_encoded(s, path),
{
    assert(path_parts(Seq::empty()) =~= Seq::empty());
    assert(path_item(0, Seq::empty()) == Item::Integer(0));
    assert(path_to(s, Item::Integer(0), s.root, 1, d) == Ok::<(Seq<char>, int), Seq<char>>(
        (Seq::empty(), 1),
    ));
}

/// The number in front of an encoded path is the SID of its node as it is.
proof fn lemma_walk_item(
    s: SchemaView,
    path: Seq<char>,
    parts: Seq<Seq<char>>,
    i: int,
    cur: usize,
    sid: int,
    seen: Seq<Item>,
)
    requires
        0 <= i <= parts.len(),
        parts.len() > 0,
        i > 0 ==> s.nodes[cur as int].sid is Some && s.nodes[cur as int].sid->0 == sid,
        path_walked(s, path, parts, i, cur, sid, seen) is Ok,
    ensures
        ({
            let (node, item) = path_walked(s, path, parts, i, cur, sid, seen)->Ok_0;
            s.nodes[node as int].sid matches Some(n) && (item == Item::Integer(n as int) || (item
                matches Item::Array(a) && a.len() > 1 && a[0] == Item::Integer(n as int)))
        }),
    decreases parts.len() - i,
{
    if i < parts.len() {
        let name = segment_name(parts[i]);
        let keys = selectors_from(parts[i], index_from(parts[i], '[', 0))->Ok_0;
        let child = child_of(s, cur, name)->0;
        let n = s.nodes[child as int].sid->0;
        let more = segment_encoded(s, path, name, child, keys)->Ok_0;
        lemma_one_step(s, path, parts, i, cur, sid, seen);
        lemma_walk_item(s, path, parts, i + 1, child, n as int, seen + more);
    } else {
        if seen.len() > 0 {
            assert((seq![Item::Integer(sid)] + seen)[0] == Item::Integer(sid));
        }
    }
}

} // verus!
