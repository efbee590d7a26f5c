//! A path that was decoded is encoded as what it was decoded from.
use vstd::prelude::*;

use crate::cbor::value::Item;
use crate::json::{json_text, Tree};
use crate::text::{
    decimal_text, find_text, index_from, is_digit, natural_text, space_end, space_start, trimmed,
};
use crate::yang::choices::governing_builtin;
use crate::yang::readings::{
    key_shown, keys_shown, path_decoded, path_len, path_sid, path_to, value_decoded,
};
use crate::yang::scalars::{signed_low, DecimalView};
use crate::yang::schema::{child_of, is_narrow, Builtin, SchemaView};
use crate::yang::tree_laws::{found_by_sid, path_settled, value_settled};
use crate::yang::value_laws::law_decimal_text_is_read;
use crate::yang::values::{
    key_tree, keys_encoded, parts_from, path_encoded, path_item, path_parts, path_walked,
    segment_encoded, segment_name, selected, selectors_from, stray_selector, text_size, unquoted,
    value_encoded,
};

verus! {

/// Whether a text holds no brackets.
pub open spec fn no_brackets(t: Seq<char>) -> bool {
    !t.contains('[') && !t.contains(']')
}

/// Whether the names of the keys of a node can stand in a path: no two are
/// the same, and none holds a bracket or an equals sign.
pub open spec fn keys_plain(keys: Seq<Seq<char>>) -> bool {
    &&& forall|i: int, j: int| 0 <= i < j < keys.len() ==> #[trigger] keys[i] != #[trigger] keys[j]
    &&& forall|i: int|
        0 <= i < keys.len() ==> no_brackets(#[trigger] keys[i]) && !keys[i].contains('=')
}

/// Whether a node and all nodes above it have SIDs, and each is found below
/// its parent by its name, up to the top of all data.
pub open spec fn connected(s: SchemaView, node: usize) -> bool
    decreases node,
{
    let n = s.nodes[node as int];
    &&& n.kw != "module"@
    &&& n.sid is Some
    &&& n.parent matches Some(p) && child_of(s, p, n.name) == Some(node) && p < node && (p == s.root
        || connected(s, p))
    &&& s.nodes[s.root as int].kw == "module"@ && s.nodes[s.root as int].parent is None
}

/// Whether a node can be reached by a path whatever its keys are: it and all
/// nodes above it have SIDs and names without brackets and slashes, and each is
/// found below its parent by its name, up to the top of all data.
pub open spec fn reachable(s: SchemaView, node: usize) -> bool
    decreases node,
{
    let n = s.nodes[node as int];
    &&& n.kw != "module"@
    &&& n.sid is Some
    &&& n.name.len() > 0 && no_brackets(n.name) && !n.name.contains('/')
    &&& keys_plain(n.keys)
    &&& n.parent matches Some(p) && child_of(s, p, n.name) == Some(node) && p < node && (p == s.root
        || reachable(s, p))
    &&& s.nodes[s.root as int].kw == "module"@ && s.nodes[s.root as int].parent is None
}

/// How many brackets are open behind a text, read from `i` on, if `depth` are
/// open there. None if a slash stands outside brackets.
pub open spec fn depth_after(t: Seq<char>, i: int, depth: int) -> Option<int>
    decreases t.len() - i,
{
    if i < 0 || i >= t.len() {
        Some(depth)
    } else if t[i] == '[' {
        depth_after(t, i + 1, depth + 1)
    } else if t[i] == ']' {
        depth_after(t, i + 1, depth - 1)
    } else if t[i] == '/' && depth == 0 {
        None
    } else {
        depth_after(t, i + 1, depth)
    }
}

/// Whether a name with selectors can stand in a path, as its last segment or
/// before others: neither the name nor a value ends the segment.
pub open spec fn segment_fits(
    name: Seq<char>,
    pairs: Seq<(Seq<char>, Seq<char>)>,
    last: bool,
) -> bool {
    &&& name.len() > 0 || pairs.len() > 0
    &&& !name.contains('[')
    &&& depth_after(name, 0, 0) is Some
    &&& forall|i: int|
        0 <= i < pairs.len() ==> !(#[trigger] pairs[i]).0.contains(']') && !pairs[i].0.contains('=')
    &&& !last ==> !name.contains(']') && forall|i: int|
        0 <= i < pairs.len() ==> !(#[trigger] pairs[i]).0.contains('[')
    &&& name.contains(']') ==> forall|i: int|
        0 <= i < pairs.len() ==> !(#[trigger] pairs[i]).0.contains('/') && !pairs[i].1.contains('/')
}

/// Whether selectors give the first keys of a list, each the value that
/// stands there.
pub open spec fn chosen(pairs: Seq<(Seq<char>, Seq<char>)>, wanted: Seq<Seq<char>>) -> bool {
    forall|j: int|
        0 <= j < wanted.len() ==> selected(pairs, #[trigger] wanted[j], 0) == (if j < pairs.len() {
            Some(pairs[j].1)
        } else {
            None
        })
}

/// Whether the segments that are shown on the way to a node can stand in a
/// path, that of the node as the last one or before others.
pub open spec fn way_fits(
    s: SchemaView,
    v: Item,
    node: usize,
    d: Seq<DecimalView>,
    last: bool,
) -> bool
    decreases node,
{
    let n = s.nodes[node as int];
    match n.parent {
        Some(p) => if p < node {
            (p == s.root || way_fits(s, v, p, d, false)) && (path_to(s, v, p, 1, d) matches Ok(
                (_, k),
            ) ==> segment_fits(n.name, pairs_shown(s, v, node, 0, k, d), last) && chosen(
                pairs_shown(s, v, node, 0, k, d),
                n.keys,
            ))
        } else {
            false
        },
        None => false,
    }
}

/// Whether the value of a key can stand in a path: its text holds no bracket,
/// and is read as a value with the same data item.
pub open spec fn key_reads_back(s: SchemaView, id: usize, item: Item, d: Seq<DecimalView>) -> bool {
    match value_decoded(s, id, item, false, d) {
        Ok(v) => no_brackets(key_shown(v)) && (key_tree(s, id, key_shown(v)) matches Ok(w)
            && value_encoded(s, id, w, false) == Ok::<Item, Seq<char>>(item)),
        Err(_) => false,
    }
}

/// A value that is decoded to itself can be a key: a text or a whole number
/// or a truth value, but no text with brackets, and no number below zero of a
/// type that has none.
pub proof fn law_key_reads_back(
    s: SchemaView,
    id: usize,
    v: Tree,
    d: Seq<DecimalView>,
    item: Item,
)
    requires
        value_encoded(s, id, v, false) == Ok::<Item, Seq<char>>(item),
        value_settled(s, id, v, d),
        ({
            let b = governing_builtin(s, id);
            match v {
                Tree::Text(t) => no_brackets(t),
                Tree::Bool(_) => b == Builtin::Boolean,
                Tree::Integer(n) => i64::MIN <= n <= i64::MAX && (b == Builtin::Int8 || b
                    == Builtin::Int16 || b == Builtin::Int32 || (n >= 0 && is_narrow(b))),
                _ => false,
            }
        }),
    ensures
        key_reads_back(s, id, item, d),
{
    match v {
        Tree::Text(_) => {},
        Tree::Bool(b) => {
            reveal_strlit("true");
            reveal_strlit("false");
            assert(no_brackets(json_text(v)));
            assert("true"@ != "false"@) by {
                assert("true"@.len() != "false"@.len());
            }
        },
        Tree::Integer(n) => {
            lemma_no_brackets_in_number(n);
            law_decimal_text_is_read(n, i64::MIN as int, i64::MAX as int);
            if n >= 0 {
                law_decimal_text_is_read(n, 0, u64::MAX as int);
            }
        },
        _ => {},
    }
}

/// A number is written without brackets.
proof fn lemma_no_brackets_in_number(n: int)
    ensures
        no_brackets(decimal_text(n)),
{
    let m = if n < 0 {
        -n
    } else {
        n
    };
    lemma_digits_only(m as nat);
    let s = natural_text(m as nat);
    let t = decimal_text(n);
    assert forall|i: int| 0 <= i < t.len() implies t[i] != '[' && t[i] != ']' by {
        if n < 0 && i > 0 {
            assert(t[i] == s[i - 1]);
        } else if n >= 0 {
            assert(t[i] == s[i]);
        }
    }
}

/// The digits of a number are digits.
proof fn lemma_digits_only(n: nat)
    ensures
        forall|i: int| 0 <= i < natural_text(n).len() ==> is_digit(#[trigger] natural_text(n)[i]),
    decreases n,
{
    if n >= 10 {
        lemma_digits_only(n / 10);
        let before = natural_text(n / 10);
        let s = natural_text(n);
        assert forall|i: int| 0 <= i < s.len() implies is_digit(#[trigger] s[i]) by {
            if i < before.len() {
                assert(s[i] == before[i]);
            }
        }
    }
}

/// The selectors that are shown for a list: its keys from the `j`-th on, with
/// the values from the `k`-th item on.
pub open spec fn pairs_shown(
    s: SchemaView,
    v: Item,
    node: usize,
    j: int,
    k: int,
    d: Seq<DecimalView>,
) -> Seq<(Seq<char>, Seq<char>)>
    decreases s.nodes[node as int].keys.len() - j,
{
    let n = s.nodes[node as int];
    if j < 0 || j >= n.keys.len() {
        Seq::empty()
    } else {
        match (child_of(s, node, n.keys[j]), v) {
            (Some(c), Item::Array(a)) => match s.nodes[c as int].type_id {
                Some(t) => if 0 <= k < a.len() {
                    seq![
                        (n.keys[j], key_shown(value_decoded(s, t, a[k], false, d)->Ok_0)),
                    ] + pairs_shown(s, v, node, j + 1, k + 1, d)
                } else {
                    Seq::empty()
                },
                None => Seq::empty(),
            },
            _ => Seq::empty(),
        }
    }
}

/// Whether all key values that are shown for a list read back.
pub open spec fn keys_read_back(
    s: SchemaView,
    v: Item,
    node: usize,
    j: int,
    k: int,
    d: Seq<DecimalView>,
) -> bool
    decreases s.nodes[node as int].keys.len() - j,
{
    let n = s.nodes[node as int];
    if j < 0 || j >= n.keys.len() {
        true
    } else {
        match (child_of(s, node, n.keys[j]), v) {
            (Some(c), Item::Array(a)) => match s.nodes[c as int].type_id {
                Some(t) => 0 <= k < a.len() ==> key_reads_back(s, t, a[k], d) && keys_read_back(
                    s,
                    v,
                    node,
                    j + 1,
                    k + 1,
                    d,
                ),
                None => true,
            },
            _ => true,
        }
    }
}

/// Whether all key values on the way to a node read back.
pub open spec fn way_reads_back(s: SchemaView, v: Item, node: usize, d: Seq<DecimalView>) -> bool
    decreases node,
{
    let n = s.nodes[node as int];
    match n.parent {
        Some(p) => if p < node {
            (p == s.root || way_reads_back(s, v, p, d)) && (path_to(s, v, p, 1, d) matches Ok(
                (_, k),
            ) ==> keys_read_back(s, v, node, 0, k, d))
        } else {
            false
        },
        None => false,
    }
}

/// One selector as text.
spec fn selector(pair: (Seq<char>, Seq<char>)) -> Seq<char> {
    "["@ + pair.0 + "='"@ + pair.1 + "']"@
}

/// Some selectors as text.
spec fn selectors(pairs: Seq<(Seq<char>, Seq<char>)>) -> Seq<char>
    decreases pairs.len(),
{
    if pairs.len() == 0 {
        Seq::empty()
    } else {
        selector(pairs[0]) + selectors(pairs.subrange(1, pairs.len() as int))
    }
}

/// Whether the name in a selector can stand there.
spec fn name_plain(pair: (Seq<char>, Seq<char>)) -> bool {
    !pair.0.contains(']') && !pair.0.contains('=')
}

/// Whether a selector can stand in a path.
spec fn pair_plain(pair: (Seq<char>, Seq<char>)) -> bool {
    !pair.0.contains(']') && !pair.0.contains('=') && no_brackets(pair.1)
}

/// Whether some selectors can stand in a path.
spec fn pairs_plain(pairs: Seq<(Seq<char>, Seq<char>)>) -> bool {
    forall|i: int| 0 <= i < pairs.len() ==> pair_plain(#[trigger] pairs[i])
}

/// Whether there is a value for the `j`-th key of a list in the `k`-th item.
spec fn has_value(s: SchemaView, v: Item, node: usize, j: int, k: int) -> bool {
    &&& 0 <= j < s.nodes[node as int].keys.len()
    &&& child_of(s, node, s.nodes[node as int].keys[j]) is Some
    &&& s.nodes[child_of(s, node, s.nodes[node as int].keys[j])->0 as int].type_id is Some
    &&& v is Array
    &&& 0 <= k < v->Array_0.len()
}

/// The type of the `j`-th key of a list.
spec fn key_type(s: SchemaView, node: usize, j: int) -> usize {
    s.nodes[child_of(s, node, s.nodes[node as int].keys[j])->0 as int].type_id->0
}

/// The text of the `k`-th item as the value of the `j`-th key of a list.
spec fn shown_at(
    s: SchemaView,
    v: Item,
    node: usize,
    j: int,
    k: int,
    d: Seq<DecimalView>,
) -> Seq<char> {
    key_shown(value_decoded(s, key_type(s, node, j), v->Array_0[k], false, d)->Ok_0)
}

/// One key is shown, then the others.
proof fn lemma_shown_step(
    s: SchemaView,
    v: Item,
    node: usize,
    j: int,
    k: int,
    d: Seq<DecimalView>,
    text: Seq<char>,
)
    requires
        has_value(s, v, node, j, k),
        keys_shown(s, v, node, j, k, d, text) is Ok,
        keys_read_back(s, v, node, j, k, d),
    ensures
        ({
            let key = s.nodes[node as int].keys[j];
            let shown = shown_at(s, v, node, j, k, d);
            &&& keys_shown(s, v, node, j, k, d, text) == keys_shown(
                s,
                v,
                node,
                j + 1,
                k + 1,
                d,
                text + selector((key, shown)),
            )
            &&& pairs_shown(s, v, node, j, k, d) == seq![(key, shown)] + pairs_shown(
                s,
                v,
                node,
                j + 1,
                k + 1,
                d,
            )
            &&& keys_read_back(s, v, node, j + 1, k + 1, d)
            &&& no_brackets(shown)
            &&& key_tree(s, key_type(s, node, j), shown) is Ok
            &&& value_encoded(
                s,
                key_type(s, node, j),
                key_tree(s, key_type(s, node, j), shown)->Ok_0,
                false,
            ) == Ok::<Item, Seq<char>>(v->Array_0[k])
        }),
{
}

/// Without a value nothing is shown.
proof fn lemma_shown_end(
    s: SchemaView,
    v: Item,
    node: usize,
    j: int,
    k: int,
    d: Seq<DecimalView>,
    text: Seq<char>,
)
    requires
        0 <= j,
        0 <= k,
        !has_value(s, v, node, j, k),
        keys_shown(s, v, node, j, k, d, text) is Ok,
    ensures
        keys_shown(s, v, node, j, k, d, text) == Ok::<(Seq<char>, int), Seq<char>>((text, k)),
        pairs_shown(s, v, node, j, k, d) == Seq::<(Seq<char>, Seq<char>)>::empty(),
{
}

/// What is known of the selectors that are shown.
spec fn pairs_known(
    s: SchemaView,
    v: Item,
    node: usize,
    j: int,
    k: int,
    pairs: Seq<(Seq<char>, Seq<char>)>,
) -> bool {
    &&& pairs.len() <= s.nodes[node as int].keys.len() - j
    &&& pairs_plain(pairs)
    &&& forall|i: int|
        0 <= i < pairs.len() ==> (#[trigger] pairs[i]).0 == s.nodes[node as int].keys[j + i]
    &&& forall|i: int|
        0 <= i < pairs.len() ==> pair_read(s, v, node, j, k, #[trigger] pairs[i], i)
}

/// One more selector in front.
proof fn lemma_known_step(
    s: SchemaView,
    v: Item,
    node: usize,
    j: int,
    k: int,
    one: (Seq<char>, Seq<char>),
    rest: Seq<(Seq<char>, Seq<char>)>,
)
    requires
        0 <= j < s.nodes[node as int].keys.len(),
        pairs_known(s, v, node, j + 1, k + 1, rest),
        one.0 == s.nodes[node as int].keys[j],
        pair_plain(one),
        pair_read(s, v, node, j, k, one, 0),
    ensures
        pairs_known(s, v, node, j, k, seq![one] + rest),
{
    let pairs = seq![one] + rest;
    assert forall|i: int| 0 <= i < pairs.len() implies pair_plain(#[trigger] pairs[i])
        && pairs[i].0 == s.nodes[node as int].keys[j + i] && pair_read(
        s,
        v,
        node,
        j,
        k,
        pairs[i],
        i,
    ) by {
        if i > 0 {
            assert(pairs[i] == rest[i - 1]);
            assert(pair_read(s, v, node, j + 1, k + 1, rest[i - 1], i - 1));
            assert(j + 1 + (i - 1) == j + i);
        }
    }
}

/// The selectors that are shown are known, and the text shows them.
proof fn lemma_pairs(
    s: SchemaView,
    v: Item,
    node: usize,
    j: int,
    k: int,
    d: Seq<DecimalView>,
    text: Seq<char>,
)
    requires
        0 <= j <= s.nodes[node as int].keys.len(),
        1 <= k,
        forall|i: int|
            0 <= i < pairs_shown(s, v, node, j, k, d).len() ==> name_plain(
                #[trigger] pairs_shown(s, v, node, j, k, d)[i],
            ),
        keys_shown(s, v, node, j, k, d, text) is Ok,
        keys_read_back(s, v, node, j, k, d),
    ensures
        ({
            let pairs = pairs_shown(s, v, node, j, k, d);
            &&& keys_shown(s, v, node, j, k, d, text) == Ok::<(Seq<char>, int), Seq<char>>(
                (text + selectors(pairs), k + pairs.len()),
            )
            &&& pairs_known(s, v, node, j, k, pairs)
        }),
    decreases s.nodes[node as int].keys.len() - j,
{
    let pairs = pairs_shown(s, v, node, j, k, d);
    if has_value(s, v, node, j, k) {
        let key = s.nodes[node as int].keys[j];
        let one = (key, shown_at(s, v, node, j, k, d));
        lemma_shown_step(s, v, node, j, k, d, text);
        let rest = pairs_shown(s, v, node, j + 1, k + 1, d);
        assert(pairs.subrange(1, pairs.len() as int) =~= rest);
        assert forall|i: int| 0 <= i < rest.len() implies name_plain(#[trigger] rest[i]) by {
            assert(rest[i] == pairs[i + 1]);
        }
        assert(name_plain(pairs[0]));
        lemma_pairs(s, v, node, j + 1, k + 1, d, text + selector(one));
        assert(text + selector(one) + selectors(rest) =~= text + selectors(pairs));
        lemma_known_step(s, v, node, j, k, one, rest);
    } else {
        lemma_shown_end(s, v, node, j, k, d, text);
        assert(text + selectors(pairs) =~= text);
    }
}

/// Whether the `i`-th selector of a list is read as its data item.
spec fn pair_read(
    s: SchemaView,
    v: Item,
    node: usize,
    j: int,
    k: int,
    pair: (Seq<char>, Seq<char>),
    i: int,
) -> bool {
    &&& v is Array
    &&& 0 <= k + i < v->Array_0.len()
    &&& match child_of(s, node, s.nodes[node as int].keys[j + i]) {
        Some(c) => match s.nodes[c as int].type_id {
            Some(t) => key_tree(s, t, pair.1) matches Ok(w) && value_encoded(s, t, w, false) == Ok::<
                Item,
                Seq<char>,
            >(v->Array_0[k + i]),
            None => false,
        },
        None => false,
    }
}

/// Whether a text stands in another one at a place.
spec fn at(s: Seq<char>, pos: int, part: Seq<char>) -> bool {
    0 <= pos && pos + part.len() <= s.len() && s.subrange(pos, pos + part.len()) == part
}

/// The parts of what stands somewhere stand there.
proof fn lemma_at(s: Seq<char>, pos: int, a: Seq<char>, b: Seq<char>)
    requires
        at(s, pos, a + b),
    ensures
        at(s, pos, a),
        at(s, pos + a.len(), b),
{
    let c = a + b;
    let whole = s.subrange(pos, pos + c.len());
    assert(s.subrange(pos, pos + a.len()) =~= a) by {
        assert forall|i: int| 0 <= i < a.len() implies s[pos + i] == a[i] by {
            assert(whole[i] == c[i]);
        }
    }
    assert(s.subrange(pos + a.len(), pos + a.len() + b.len()) =~= b) by {
        assert forall|i: int| 0 <= i < b.len() implies s[pos + a.len() + i] == b[i] by {
            assert(whole[a.len() + i] == c[a.len() + i]);
        }
    }
}

/// The characters of what stands somewhere.
proof fn lemma_at_char(s: Seq<char>, pos: int, part: Seq<char>, i: int)
    requires
        at(s, pos, part),
        0 <= i < part.len(),
    ensures
        s[pos + i] == part[i],
{
    assert(s.subrange(pos, pos + part.len())[i] == part[i]);
}

/// Splitting passes over what holds no slash outside brackets.
proof fn lemma_scan(path: Seq<char>, pos: int, part: Seq<char>, i: int, depth: int, start: int)
    requires
        at(path, pos, part),
        0 <= i <= part.len(),
        depth_after(part, i, depth) is Some,
    ensures
        parts_from(path, pos + i, depth, start) == parts_from(
            path,
            pos + part.len(),
            depth_after(part, i, depth)->0,
            start,
        ),
    decreases part.len() - i,
{
    if i < part.len() {
        lemma_at_char(path, pos, part, i);
        let next = if part[i] == '[' {
            depth + 1
        } else if part[i] == ']' {
            depth - 1
        } else {
            depth
        };
        lemma_scan(path, pos, part, i + 1, next, start);
    }
}

/// The brackets behind two texts are those behind the second one.
pub(crate) proof fn lemma_depth_joined(a: Seq<char>, b: Seq<char>, depth: int)
    ensures
        depth_after(a + b, 0, depth) == (match depth_after(a, 0, depth) {
            None => None,
            Some(x) => depth_after(b, 0, x),
        }),
{
    lemma_depth_first(a, b, 0, depth);
    if depth_after(a, 0, depth) is Some {
        lemma_depth_second(a, b, 0, depth_after(a, 0, depth)->0);
    }
}

proof fn lemma_depth_first(a: Seq<char>, b: Seq<char>, i: int, depth: int)
    requires
        0 <= i <= a.len(),
    ensures
        depth_after(a + b, i, depth) == (match depth_after(a, i, depth) {
            None => None,
            Some(x) => depth_after(a + b, a.len() as int, x),
        }),
    decreases a.len() - i,
{
    if i < a.len() {
        assert((a + b)[i] == a[i]);
        let next = if a[i] == '[' {
            depth + 1
        } else if a[i] == ']' {
            depth - 1
        } else {
            depth
        };
        lemma_depth_first(a, b, i + 1, next);
    }
}

proof fn lemma_depth_second(a: Seq<char>, b: Seq<char>, i: int, depth: int)
    requires
        0 <= i <= b.len(),
    ensures
        depth_after(a + b, a.len() + i, depth) == depth_after(b, i, depth),
    decreases b.len() - i,
{
    if i < b.len() {
        assert((a + b)[a.len() + i] == b[i]);
        let next = if b[i] == '[' {
            depth + 1
        } else if b[i] == ']' {
            depth - 1
        } else {
            depth
        };
        lemma_depth_second(a, b, i + 1, next);
    }
}

/// A text without slashes has none outside brackets.
proof fn lemma_depth_free(t: Seq<char>, i: int, depth: int)
    requires
        0 <= i <= t.len(),
        !t.contains('/'),
    ensures
        depth_after(t, i, depth) is Some,
    decreases t.len() - i,
{
    if i < t.len() {
        assert(t.contains(t[i]));
        lemma_depth_free(t, i + 1, depth);
        lemma_depth_free(t, i + 1, depth + 1);
        lemma_depth_free(t, i + 1, depth - 1);
    }
}

/// Within brackets that are not closed no slash stands outside brackets.
proof fn lemma_depth_open(t: Seq<char>, i: int, depth: int)
    requires
        0 <= i <= t.len(),
        !t.contains(']'),
        depth >= 1,
    ensures
        depth_after(t, i, depth) matches Some(x) && x >= depth && (!t.contains('[') ==> x == depth),
    decreases t.len() - i,
{
    if i < t.len() {
        assert(t.contains(t[i]));
        if t[i] == '[' {
            lemma_depth_open(t, i + 1, depth + 1);
        } else {
            lemma_depth_open(t, i + 1, depth);
        }
    }
}

/// Without brackets nothing is opened or closed.
proof fn lemma_depth_same(t: Seq<char>, i: int, depth: int)
    requires
        0 <= i <= t.len(),
        no_brackets(t),
    ensures
        depth_after(t, i, depth) matches Some(x) ==> x == depth,
        !t.contains('/') ==> depth_after(t, i, depth) is Some,
    decreases t.len() - i,
{
    if i < t.len() {
        assert(t.contains(t[i]));
        lemma_depth_same(t, i + 1, depth);
    }
}

/// A selector in its parts.
proof fn lemma_depth_selector_parts(pair: (Seq<char>, Seq<char>), depth: int)
    ensures
        depth_after(selector(pair), 0, depth) == (match depth_after(pair.0, 0, depth + 1) {
            None => None,
            Some(x) => match depth_after("='"@, 0, x) {
                None => None,
                Some(y) => match depth_after(pair.1, 0, y) {
                    None => None,
                    Some(z) => depth_after("']"@, 0, z),
                },
            },
        }),
{
    reveal_strlit("[");
    let a = "["@;
    let b = a + pair.0;
    let c = b + "='"@;
    let e = c + pair.1;
    assert(depth_after(a, 0, depth) == Some(depth + 1)) by {
        assert(depth_after(a, 1, depth + 1) == Some(depth + 1));
    }
    lemma_depth_joined(a, pair.0, depth);
    lemma_depth_joined(b, "='"@, depth);
    lemma_depth_joined(c, pair.1, depth);
    lemma_depth_joined(e, "']"@, depth);
}

/// The ends of a selector.
proof fn lemma_depth_ends(x: int)
    ensures
        depth_after("='"@, 0, x) == Some(x),
        depth_after("']"@, 0, x) == Some(x - 1),
{
    reveal_strlit("='");
    reveal_strlit("']");
    let a = "='"@;
    let b = "']"@;
    assert(depth_after(a, 2, x) == Some(x));
    assert(depth_after(a, 1, x) == Some(x));
    assert(depth_after(b, 2, x - 1) == Some(x - 1));
    assert(depth_after(b, 1, x) == Some(x - 1));
}

/// No slash stands outside brackets in selectors behind a balanced text.
proof fn lemma_depth_selectors(pairs: Seq<(Seq<char>, Seq<char>)>, depth: int)
    requires
        pairs_plain(pairs),
        depth >= 0,
    ensures
        depth_after(selectors(pairs), 0, depth) is Some,
        (forall|i: int| 0 <= i < pairs.len() ==> !(#[trigger] pairs[i]).0.contains('['))
            ==> depth_after(selectors(pairs), 0, depth) == Some(depth),
    decreases pairs.len(),
{
    if pairs.len() > 0 {
        let pair = pairs[0];
        let rest = pairs.subrange(1, pairs.len() as int);
        assert forall|i: int| 0 <= i < rest.len() implies rest[i] == #[trigger] pairs[i + 1] by {}
        assert forall|i: int| 0 <= i < rest.len() implies pair_plain(#[trigger] rest[i]) by {
            assert(rest[i] == pairs[i + 1]);
        }
        assert(pair_plain(pair));
        lemma_depth_open(pair.0, 0, depth + 1);
        let x = depth_after(pair.0, 0, depth + 1)->0;
        lemma_depth_ends(x);
        lemma_depth_open(pair.1, 0, x);
        lemma_depth_selector_parts(pair, depth);
        lemma_depth_joined(selector(pair), selectors(rest), depth);
        lemma_depth_selectors(rest, x - 1);
        if forall|i: int| 0 <= i < pairs.len() ==> !(#[trigger] pairs[i]).0.contains('[') {
            assert(!pairs[0].0.contains('['));
            assert forall|i: int| 0 <= i < rest.len() implies !(#[trigger] rest[i]).0.contains(
                '[',
            ) by {
                assert(rest[i] == pairs[i + 1]);
            }
        }
    }
}

/// No slash stands in selectors without slashes.
proof fn lemma_depth_selectors_free(pairs: Seq<(Seq<char>, Seq<char>)>, depth: int)
    requires
        forall|i: int|
            0 <= i < pairs.len() ==> !(#[trigger] pairs[i]).0.contains('/')
                && !pairs[i].1.contains('/'),
    ensures
        depth_after(selectors(pairs), 0, depth) is Some,
    decreases pairs.len(),
{
    if pairs.len() > 0 {
        let pair = pairs[0];
        let rest = pairs.subrange(1, pairs.len() as int);
        assert forall|i: int| 0 <= i < rest.len() implies !(#[trigger] rest[i]).0.contains('/')
            && !rest[i].1.contains('/') by {
            assert(rest[i] == pairs[i + 1]);
        }
        lemma_depth_free(pair.0, 0, depth + 1);
        let x = depth_after(pair.0, 0, depth + 1)->0;
        lemma_depth_ends(x);
        lemma_depth_free(pair.1, 0, x);
        let y = depth_after(pair.1, 0, x)->0;
        lemma_depth_ends(y);
        lemma_depth_selector_parts(pair, depth);
        lemma_depth_joined(selector(pair), selectors(rest), depth);
        lemma_depth_selectors_free(rest, y - 1);
    }
}

/// One segment: a name and its selectors.
spec fn segment(name: Seq<char>, pairs: Seq<(Seq<char>, Seq<char>)>) -> Seq<char> {
    name + selectors(pairs)
}

/// Whether a text is a segment that can stand in a path, as its last one or
/// before others.
spec fn is_segment(seg: Seq<char>, last: bool) -> bool {
    &&& seg.len() > 0
    &&& depth_after(seg, 0, 0) is Some
    &&& !last ==> depth_after(seg, 0, 0) == Some(0int)
}

/// A name with selectors that fits is a segment.
proof fn lemma_is_segment(name: Seq<char>, pairs: Seq<(Seq<char>, Seq<char>)>, last: bool)
    requires
        segment_fits(name, pairs, last),
        pairs_plain(pairs),
    ensures
        is_segment(segment(name, pairs), last),
{
    lemma_depth_joined(name, selectors(pairs), 0);
    if pairs.len() > 0 {
        lemma_value_short(pairs, 0);
    }
    if name.contains(']') {
        lemma_depth_selectors_free(pairs, depth_after(name, 0, 0)->0);
    } else {
        lemma_depth_same(name, 0, 0);
        lemma_depth_selectors(pairs, 0);
    }
}

/// Some segments, each behind a slash.
spec fn slashed(segs: Seq<Seq<char>>) -> Seq<char>
    decreases segs.len(),
{
    if segs.len() == 0 {
        Seq::empty()
    } else {
        slashed(segs.drop_last()) + "/"@ + segs.last()
    }
}

/// The first `m` segments of a path stand at its beginning.
proof fn lemma_slashed_prefix(segs: Seq<Seq<char>>, m: int)
    requires
        0 <= m <= segs.len(),
    ensures
        at(slashed(segs), 0, slashed(segs.subrange(0, m))),
        m < segs.len() ==> at(slashed(segs), slashed(segs.subrange(0, m)).len() as int, "/"@ + segs[m]),
        m < segs.len() ==> slashed(segs.subrange(0, m + 1)).len() == slashed(segs.subrange(0, m)).len()
            + 1 + segs[m].len(),
    decreases segs.len(),
{
    reveal_strlit("/");
    let n = segs.len() as int;
    let path = slashed(segs);
    if m == n {
        assert(segs.subrange(0, m) =~= segs);
        assert(path.subrange(0, path.len() as int) =~= path);
    } else {
        let short = segs.drop_last();
        let before = slashed(short);
        assert(path == before + "/"@ + segs.last());
        if m == n - 1 {
            assert(segs.subrange(0, m) =~= short);
            assert(segs.subrange(0, m + 1) =~= segs);
            assert(path.subrange(0, before.len() as int) =~= before);
            assert(path.subrange(before.len() as int, path.len() as int) =~= "/"@ + segs[m]);
        } else {
            lemma_slashed_prefix(short, m);
            assert(short.subrange(0, m) =~= segs.subrange(0, m));
            assert(short.subrange(0, m + 1) =~= segs.subrange(0, m + 1));
            let first = slashed(segs.subrange(0, m));
            let more = "/"@ + segs[m];
            assert(path.subrange(0, first.len() as int) =~= before.subrange(0, first.len() as int));
            assert(path.subrange(first.len() as int, (first.len() + more.len()) as int)
                =~= before.subrange(first.len() as int, (first.len() + more.len()) as int));
        }
    }
}

/// The segments of a path from the `m`-th on.
proof fn lemma_parts(segs: Seq<Seq<char>>, m: int)
    requires
        0 <= m < segs.len(),
        forall|i: int| 0 <= i < segs.len() ==> is_segment(#[trigger] segs[i], i + 1 == segs.len()),
    ensures
        ({
            let from = slashed(segs.subrange(0, m)).len() as int + 1;
            parts_from(slashed(segs), from, 0, from) == segs.subrange(m, segs.len() as int)
        }),
    decreases segs.len() - m,
{
    reveal_strlit("/");
    let path = slashed(segs);
    let pos = slashed(segs.subrange(0, m)).len() as int;
    let from = pos + 1;
    lemma_slashed_prefix(segs, m);
    lemma_at(path, pos, "/"@, segs[m]);
    assert(is_segment(segs[m], m + 1 == segs.len()));
    lemma_scan(path, from, segs[m], 0, 0, from);
    let end = from + segs[m].len();
    if m + 1 < segs.len() {
        lemma_slashed_prefix(segs, m + 1);
        lemma_at(path, end, "/"@, segs[m + 1]);
        lemma_at_char(path, end, "/"@, 0);
        lemma_parts(segs, m + 1);
        assert(parts_from(path, end, 0, from) == seq![path.subrange(from, end)] + parts_from(
            path,
            end + 1,
            0,
            end + 1,
        ));
        assert(segs.subrange(m, segs.len() as int) =~= seq![segs[m]] + segs.subrange(
            m + 1,
            segs.len() as int,
        ));
    } else {
        assert(segs.subrange(0, m + 1) =~= segs);
        assert(end == path.len());
        assert(segs.subrange(m, segs.len() as int) =~= seq![segs[m]]);
    }
}

/// A path of some segments has these segments.
proof fn lemma_path_parts(segs: Seq<Seq<char>>)
    requires
        forall|i: int| 0 <= i < segs.len() ==> is_segment(#[trigger] segs[i], i + 1 == segs.len()),
    ensures
        path_parts(slashed(segs)) == segs,
{
    reveal_strlit("/");
    if segs.len() > 0 {
        let path = slashed(segs);
        lemma_slashed_prefix(segs, 0);
        assert(segs.subrange(0, 0) =~= Seq::empty());
        assert(slashed(segs.subrange(0, 0)).len() == 0);
        lemma_at(path, 0, "/"@, segs[0]);
        lemma_at_char(path, 0, "/"@, 0);
        lemma_parts(segs, 0);
        assert(segs.subrange(0, segs.len() as int) =~= segs);
        assert(parts_from(path, 0, 0, 0) =~= parts_from(path, 1, 0, 1));
    } else {
        assert(path_parts(Seq::empty()) =~= segs);
    }
}

/// The first place of a character.
proof fn lemma_first(s: Seq<char>, c: char, from: int, n: int)
    requires
        0 <= from <= n <= s.len(),
        n < s.len() ==> s[n] == c,
        forall|k: int| from <= k < n ==> s[k] != c,
    ensures
        index_from(s, c, from) == n,
    decreases n - from,
{
    if from < n {
        lemma_first(s, c, from + 1, n);
    }
}

/// A value in single quotes is read as the value.
proof fn lemma_unquoted(value: Seq<char>)
    ensures
        unquoted(trimmed("'"@ + value + "'"@)) == value,
{
    reveal_strlit("'");
    let q = "'"@ + value + "'"@;
    assert(q[0] == '\'');
    assert(q[q.len() - 1] == '\'');
    assert(space_end(q, 0) == 0);
    assert(space_start(q, 0, q.len() as int) == q.len());
    assert(q.subrange(0, q.len() as int) =~= q);
    assert(q.subrange(1, q.len() - 1) =~= value);
}

/// The selectors in a segment are read as they were written.
proof fn lemma_selectors(seg: Seq<char>, pos: int, pairs: Seq<(Seq<char>, Seq<char>)>)
    requires
        at(seg, pos, selectors(pairs)),
        pos + selectors(pairs).len() == seg.len(),
        pairs_plain(pairs),
    ensures
        selectors_from(seg, pos) == Ok::<Seq<(Seq<char>, Seq<char>)>, Seq<char>>(pairs),
        pairs.len() > 0 ==> pos < seg.len() && seg[pos] == '[',
        pairs.len() == 0 ==> pos == seg.len(),
    decreases pairs.len(),
{
    if pairs.len() == 0 {
        assert(pairs =~= Seq::empty());
    } else {
        reveal_strlit("[");
        reveal_strlit("='");
        reveal_strlit("']");
        reveal_strlit("'");
        reveal_strlit("]");
        let pair = pairs[0];
        assert(pair_plain(pair));
        let rest = pairs.subrange(1, pairs.len() as int);
        lemma_at(seg, pos, selector(pair), selectors(rest));
        let quoted_value = "'"@ + pair.1 + "'"@;
        let inner = pair.0 + "="@ + quoted_value;
        reveal_strlit("=");
        assert(selector(pair) =~= "["@ + (inner + "]"@));
        lemma_at(seg, pos, "["@, inner + "]"@);
        lemma_at(seg, pos + 1, inner, "]"@);
        lemma_at_char(seg, pos, "["@, 0);
        let end = pos + 1 + inner.len();
        lemma_at_char(seg, end, "]"@, 0);
        assert(index_from(seg, '[', pos) == pos);
        assert forall|k: int| pos <= k < end implies seg[k] != ']' by {
            if k > pos {
                let i = k - pos - 1;
                lemma_at_char(seg, pos + 1, inner, i);
                if i < pair.0.len() {
                    assert(inner[i] == pair.0[i]);
                    assert(pair.0.contains(pair.0[i]));
                } else if i == pair.0.len() {
                    assert(inner[i] == '=');
                } else if i == pair.0.len() + 1 {
                    assert(inner[i] == '\'');
                } else if i < pair.0.len() + 2 + pair.1.len() {
                    assert(inner[i] == pair.1[i - pair.0.len() - 2]);
                    assert(pair.1.contains(pair.1[i - pair.0.len() - 2]));
                } else {
                    assert(inner[i] == '\'');
                }
            }
        }
        lemma_first(seg, ']', pos, end);
        assert(seg.subrange(pos + 1, end) == inner);
        assert forall|k: int| 0 <= k < pair.0.len() implies inner[k] != '=' by {
            assert(inner[k] == pair.0[k]);
            assert(pair.0.contains(pair.0[k]));
        }
        assert(inner[pair.0.len() as int] == '=');
        lemma_first(inner, '=', 0, pair.0.len() as int);
        assert(inner.subrange(0, pair.0.len() as int) =~= pair.0);
        assert(inner.subrange(pair.0.len() as int + 1, inner.len() as int) =~= quoted_value);
        lemma_unquoted(pair.1);
        assert forall|i: int| 0 <= i < rest.len() implies pair_plain(#[trigger] rest[i]) by {
            assert(rest[i] == pairs[i + 1]);
        }
        assert(end + 1 == pos + selector(pair).len());
        lemma_selectors(seg, end + 1, rest);
        assert(seq![(pair.0, pair.1)] + rest =~= pairs);
    }
}

/// A segment is read as its name and its selectors.
proof fn lemma_segment(name: Seq<char>, pairs: Seq<(Seq<char>, Seq<char>)>)
    requires
        !name.contains('['),
        pairs_plain(pairs),
    ensures
        ({
            let seg = segment(name, pairs);
            &&& segment_name(seg) == name
            &&& selectors_from(seg, index_from(seg, '[', 0)) == Ok::<
                Seq<(Seq<char>, Seq<char>)>,
                Seq<char>,
            >(pairs)
        }),
{
    let seg = segment(name, pairs);
    let n = name.len() as int;
    assert(seg.subrange(n, seg.len() as int) =~= selectors(pairs));
    lemma_selectors(seg, n, pairs);
    assert forall|k: int| 0 <= k < n implies seg[k] != '[' by {
        assert(seg[k] == name[k]);
        assert(name.contains(name[k]));
    }
    lemma_first(seg, '[', 0, n);
    assert(seg.subrange(0, n) =~= name);
}

/// A key that is selected is found, and one that is not is not.
proof fn lemma_selected(
    pairs: Seq<(Seq<char>, Seq<char>)>,
    wanted: Seq<Seq<char>>,
    j: int,
    from: int,
)
    requires
        keys_plain(wanted),
        0 <= j < wanted.len(),
        0 <= from <= pairs.len(),
        pairs.len() <= wanted.len(),
        forall|i: int| 0 <= i < pairs.len() ==> (#[trigger] pairs[i]).0 == wanted[i],
        from <= j,
    ensures
        selected(pairs, wanted[j], from) == (if j < pairs.len() {
            Some(pairs[j].1)
        } else {
            None
        }),
    decreases pairs.len() - from,
{
    if from < pairs.len() {
        if from < j {
            assert(wanted[from] != wanted[j]);
            lemma_selected(pairs, wanted, j, from + 1);
        }
    }
}

proof fn lemma_found(parts: Seq<Seq<char>>, i: int, from: int)
    requires
        0 <= from <= i < parts.len(),
    ensures
        find_text(parts, parts[i], from) is Some,
    decreases i - from,
{
    if from < i {
        lemma_found(parts, i, from + 1);
    }
}

/// Selectors for keys of a list are not out of place.
proof fn lemma_no_stray(
    pairs: Seq<(Seq<char>, Seq<char>)>,
    wanted: Seq<Seq<char>>,
    from: int,
)
    requires
        0 <= from <= pairs.len(),
        pairs.len() <= wanted.len(),
        forall|i: int| 0 <= i < pairs.len() ==> (#[trigger] pairs[i]).0 == wanted[i],
    ensures
        stray_selector(pairs, wanted, from) is None,
    decreases pairs.len() - from,
{
    if from < pairs.len() {
        lemma_found(wanted, from, 0);
        lemma_no_stray(pairs, wanted, from + 1);
    }
}

/// A key's value is no longer than its text.
pub(crate) proof fn lemma_key_size(s: SchemaView, id: usize, raw: Seq<char>)
    ensures
        key_tree(s, id, raw) matches Ok(v) ==> text_size(v) <= raw.len(),
{
}

/// A key that is selected is encoded, then the others.
proof fn lemma_key_step(
    s: SchemaView,
    path: Seq<char>,
    v: Item,
    node: usize,
    pairs: Seq<(Seq<char>, Seq<char>)>,
    k: int,
    j: int,
    seen: Seq<Item>,
)
    requires
        0 <= j < s.nodes[node as int].keys.len(),
        j < pairs.len(),
        selected(pairs, s.nodes[node as int].keys[j], 0) == Some(pairs[j].1),
        pair_read(s, v, node, 0, k, pairs[j], j),
        pairs[j].1.len() < path.len(),
    ensures
        keys_encoded(s, path, s.nodes[node as int].name, node, pairs, j, seen) == keys_encoded(
            s,
            path,
            s.nodes[node as int].name,
            node,
            pairs,
            j + 1,
            seen.push(v->Array_0[k + j]),
        ),
{
    lemma_key_size(s, key_type(s, node, j), pairs[j].1);
}

/// A key that is not selected is passed over.
proof fn lemma_key_skip(
    s: SchemaView,
    path: Seq<char>,
    node: usize,
    pairs: Seq<(Seq<char>, Seq<char>)>,
    j: int,
    seen: Seq<Item>,
)
    requires
        0 <= j < s.nodes[node as int].keys.len(),
        selected(pairs, s.nodes[node as int].keys[j], 0) is None,
    ensures
        keys_encoded(s, path, s.nodes[node as int].name, node, pairs, j, seen) == keys_encoded(
            s,
            path,
            s.nodes[node as int].name,
            node,
            pairs,
            j + 1,
            seen,
        ),
{
}

/// The keys of a list from the `j`-th on are encoded as they were.
#[verifier::rlimit(40)]
proof fn lemma_keys(
    s: SchemaView,
    path: Seq<char>,
    v: Item,
    node: usize,
    pairs: Seq<(Seq<char>, Seq<char>)>,
    k: int,
    j: int,
    seen: Seq<Item>,
)
    requires
        0 <= j <= s.nodes[node as int].keys.len(),
        chosen(pairs, s.nodes[node as int].keys),
        pairs.len() <= s.nodes[node as int].keys.len(),
        forall|i: int|
            0 <= i < pairs.len() ==> (#[trigger] pairs[i]).0 == s.nodes[node as int].keys[i],
        forall|i: int| 0 <= i < pairs.len() ==> pair_read(s, v, node, 0, k, #[trigger] pairs[i], i),
        forall|i: int| 0 <= i < pairs.len() ==> (#[trigger] pairs[i]).1.len() < path.len(),
        1 <= k,
        pairs.len() > 0 ==> v is Array && k + pairs.len() <= v->Array_0.len(),
    ensures
        keys_encoded(s, path, s.nodes[node as int].name, node, pairs, j, seen) == Ok::<
            Seq<Item>,
            Seq<char>,
        >(
            seen + (if j < pairs.len() {
                v->Array_0.subrange(k + j, k + pairs.len())
            } else {
                Seq::empty()
            }),
        ),
    decreases s.nodes[node as int].keys.len() - j,
{
    let name = s.nodes[node as int].name;
    let wanted = s.nodes[node as int].keys;
    if j < wanted.len() {
        assert(selected(pairs, wanted[j], 0) == (if j < pairs.len() {
            Some(pairs[j].1)
        } else {
            None
        }));
        if j < pairs.len() {
            assert(pair_read(s, v, node, 0, k, pairs[j], j));
            let a = v->Array_0;
            lemma_key_step(s, path, v, node, pairs, k, j, seen);
            let next = seen.push(a[k + j]);
            lemma_keys(s, path, v, node, pairs, k, j + 1, next);
            let more = if j + 1 < pairs.len() {
                a.subrange(k + j + 1, k + pairs.len())
            } else {
                Seq::empty()
            };
            assert(next + more =~= seen + a.subrange(k + j, k + pairs.len()));
        } else {
            lemma_key_skip(s, path, node, pairs, j, seen);
            lemma_keys(s, path, v, node, pairs, k, j + 1, seen);
        }
    } else {
        assert(seen + Seq::<Item>::empty() =~= seen);
    }
}

/// The segments that lead to a node.
spec fn segments_to(s: SchemaView, v: Item, node: usize, d: Seq<DecimalView>) -> Seq<Seq<char>>
    decreases node,
{
    match s.nodes[node as int].parent {
        Some(p) => if p < node {
            (if p == s.root {
                Seq::empty()
            } else {
                segments_to(s, v, p, d)
            }).push(
                segment(
                    s.nodes[node as int].name,
                    pairs_shown(s, v, node, 0, path_to(s, v, p, 1, d)->Ok_0.1, d),
                ),
            )
        } else {
            Seq::empty()
        },
        None => Seq::empty(),
    }
}

/// What is known of the path to a node.
#[verifier::rlimit(40)]
proof fn lemma_way(s: SchemaView, v: Item, node: usize, d: Seq<DecimalView>, last: bool)
    requires
        connected(s, node),
        way_reads_back(s, v, node, d),
        way_fits(s, v, node, d, last),
        path_to(s, v, node, 1, d) is Ok,
    ensures
        ({
            let (text, k) = path_to(s, v, node, 1, d)->Ok_0;
            let segs = segments_to(s, v, node, d);
            &&& text == slashed(segs)
            &&& segs.len() > 0
            &&& 1 <= k
            &&& k > 1 ==> v is Array && k <= v->Array_0.len()
            &&& forall|i: int|
                0 <= i < segs.len() ==> is_segment(#[trigger] segs[i], last && i + 1 == segs.len())
        }),
    decreases node,
{
    reveal_strlit("/");
    let n = s.nodes[node as int];
    let p = n.parent->0;
    let above = path_to(s, v, p, 1, d);
    if p == s.root {
        assert(above == Ok::<(Seq<char>, int), Seq<char>>((Seq::empty(), 1)));
    } else {
        lemma_way(s, v, p, d, false);
    }
    let (text, k) = above->Ok_0;
    let pairs = pairs_shown(s, v, node, 0, k, d);
    assert(segment_fits(n.name, pairs, last));
    assert forall|i: int| 0 <= i < pairs.len() implies name_plain(#[trigger] pairs[i]) by {}
    lemma_pairs(s, v, node, 0, k, d, text + "/"@ + n.name);
    let before = if p == s.root {
        Seq::empty()
    } else {
        segments_to(s, v, p, d)
    };
    assert(text =~= slashed(before));
    let segs = segments_to(s, v, node, d);
    assert(segs.drop_last() =~= before);
    assert(segs.last() == segment(n.name, pairs));
    assert(text + "/"@ + n.name + selectors(pairs) =~= slashed(segs));
    lemma_is_segment(n.name, pairs, last);
    assert forall|i: int| 0 <= i < segs.len() implies is_segment(
        #[trigger] segs[i],
        last && i + 1 == segs.len(),
    ) by {
        if i < before.len() {
            assert(segs[i] == before[i]);
        }
    }
    if pairs.len() > 0 {
        let last = pairs.len() - 1;
        assert(pair_read(s, v, node, 0, k, pairs[last], last));
    }
}

/// A selector is longer than its value.
proof fn lemma_value_short(pairs: Seq<(Seq<char>, Seq<char>)>, i: int)
    requires
        0 <= i < pairs.len(),
    ensures
        pairs[i].1.len() < selectors(pairs).len(),
    decreases pairs.len(),
{
    reveal_strlit("[");
    reveal_strlit("='");
    reveal_strlit("']");
    if i > 0 {
        let rest = pairs.subrange(1, pairs.len() as int);
        assert(rest[i - 1] == pairs[i]);
        lemma_value_short(rest, i - 1);
    }
}

/// The data items of the first keys of a path.
spec fn items_to(v: Item, k: int) -> Seq<Item> {
    if k > 1 {
        v->Array_0.subrange(1, k)
    } else {
        Seq::empty()
    }
}

/// Walking the first segments of a path leads to the node that they lead to.
#[verifier::rlimit(40)]
proof fn lemma_walk(
    s: SchemaView,
    v: Item,
    node: usize,
    d: Seq<DecimalView>,
    path: Seq<char>,
    parts: Seq<Seq<char>>,
    last: bool,
)
    requires
        connected(s, node),
        way_reads_back(s, v, node, d),
        way_fits(s, v, node, d, last),
        path_to(s, v, node, 1, d) is Ok,
        path_to(s, v, node, 1, d)->Ok_0.0.len() <= path.len(),
        segments_to(s, v, node, d).len() <= parts.len(),
        parts.subrange(0, segments_to(s, v, node, d).len() as int) == segments_to(s, v, node, d),
    ensures
        path_walked(s, path, parts, 0, s.root, 0, Seq::empty()) == path_walked(
            s,
            path,
            parts,
            segments_to(s, v, node, d).len() as int,
            node,
            s.nodes[node as int].sid->0 as int,
            items_to(v, path_to(s, v, node, 1, d)->Ok_0.1),
        ),
    decreases node,
{
    reveal_strlit("/");
    let n = s.nodes[node as int];
    let p = n.parent->0;
    let above = path_to(s, v, p, 1, d);
    let segs = segments_to(s, v, node, d);
    let i = segs.len() - 1;
    let before = if p == s.root {
        Seq::empty()
    } else {
        segments_to(s, v, p, d)
    };
    lemma_way(s, v, node, d, last);
    if p != s.root {
        lemma_way(s, v, p, d, false);
    }
    let (text, k) = above->Ok_0;
    let pairs = pairs_shown(s, v, node, 0, k, d);
    assert(segment_fits(n.name, pairs, last) && chosen(pairs, n.keys));
    assert forall|i: int| 0 <= i < pairs.len() implies name_plain(#[trigger] pairs[i]) by {}
    lemma_pairs(s, v, node, 0, k, d, text + "/"@ + n.name);
    assert(segs == before.push(segment(n.name, pairs)));
    assert(before.len() == i);
    assert(parts[i] == segs[i]) by {
        assert(parts.subrange(0, segs.len() as int)[i] == segs[i]);
    }
    if p != s.root {
        assert(parts.subrange(0, i) =~= before) by {
            assert forall|x: int| 0 <= x < i implies parts[x] == before[x] by {
                assert(parts.subrange(0, segs.len() as int)[x] == segs[x]);
            }
        }
        lemma_walk(s, v, p, d, path, parts, false);
    }
    let cur = p;
    let sid = if p == s.root {
        0
    } else {
        s.nodes[p as int].sid->0 as int
    };
    let seen = items_to(v, k);
    assert(path_walked(s, path, parts, 0, s.root, 0, Seq::empty()) == path_walked(
        s,
        path,
        parts,
        i,
        cur,
        sid,
        seen,
    ));
    assert(k + pairs.len() == path_to(s, v, node, 1, d)->Ok_0.1);
    assert(text.len() + 1 + n.name.len() + selectors(pairs).len() <= path.len());
    lemma_walk_step(s, v, node, path, parts, i, cur, sid, pairs, k);
}

/// Walking one segment of a path.
#[verifier::rlimit(40)]
proof fn lemma_walk_step(
    s: SchemaView,
    v: Item,
    node: usize,
    path: Seq<char>,
    parts: Seq<Seq<char>>,
    i: int,
    cur: usize,
    sid: int,
    pairs: Seq<(Seq<char>, Seq<char>)>,
    k: int,
)
    requires
        0 <= i < parts.len(),
        parts[i] == segment(s.nodes[node as int].name, pairs),
        !s.nodes[node as int].name.contains('['),
        child_of(s, cur, s.nodes[node as int].name) == Some(node),
        s.nodes[node as int].sid is Some,
        chosen(pairs, s.nodes[node as int].keys),
        pairs_known(s, v, node, 0, k, pairs),
        selectors(pairs).len() <= path.len(),
        1 <= k,
        k > 1 ==> v is Array && k <= v->Array_0.len(),
    ensures
        path_walked(s, path, parts, i, cur, sid, items_to(v, k)) == path_walked(
            s,
            path,
            parts,
            i + 1,
            node,
            s.nodes[node as int].sid->0 as int,
            items_to(v, k + pairs.len()),
        ),
{
    let n = s.nodes[node as int];
    lemma_segment(n.name, pairs);
    lemma_keys_of_segment(s, v, node, path, pairs, k);
    let more = items_between(v, k, pairs.len() as int);
    lemma_one_segment(s, path, parts, i, cur, sid, items_to(v, k), node, pairs, more);
    lemma_items(s, v, node, pairs, k);
}

/// The data items of some keys follow those of the keys before.
proof fn lemma_items(
    s: SchemaView,
    v: Item,
    node: usize,
    pairs: Seq<(Seq<char>, Seq<char>)>,
    k: int,
)
    requires
        pairs_known(s, v, node, 0, k, pairs),
        1 <= k,
        k > 1 ==> v is Array && k <= v->Array_0.len(),
    ensures
        items_to(v, k) + items_between(v, k, pairs.len() as int) == items_to(v, k + pairs.len()),
{
    if pairs.len() > 0 {
        let last = pairs.len() - 1;
        assert(pair_read(s, v, node, 0, k, pairs[last], last));
    }
    assert(items_to(v, k) + items_between(v, k, pairs.len() as int) =~= items_to(
        v,
        k + pairs.len(),
    ));
}

/// Some data items of the keys of a path.
spec fn items_between(v: Item, k: int, n: int) -> Seq<Item> {
    if n > 0 {
        v->Array_0.subrange(k, k + n)
    } else {
        Seq::empty()
    }
}

/// The keys that one segment of a path selects.
#[verifier::rlimit(40)]
proof fn lemma_keys_of_segment(
    s: SchemaView,
    v: Item,
    node: usize,
    path: Seq<char>,
    pairs: Seq<(Seq<char>, Seq<char>)>,
    k: int,
)
    requires
        chosen(pairs, s.nodes[node as int].keys),
        pairs_known(s, v, node, 0, k, pairs),
        selectors(pairs).len() <= path.len(),
        1 <= k,
    ensures
        segment_encoded(s, path, s.nodes[node as int].name, node, pairs) == Ok::<
            Seq<Item>,
            Seq<char>,
        >(items_between(v, k, pairs.len() as int)),
{
    let n = s.nodes[node as int];
    assert forall|x: int| 0 <= x < pairs.len() implies (#[trigger] pairs[x]).1.len()
        < path.len() by {
        lemma_value_short(pairs, x);
    }
    if pairs.len() > 0 {
        let last = pairs.len() - 1;
        assert(pair_read(s, v, node, 0, k, pairs[last], last));
    }
    lemma_keys(s, path, v, node, pairs, k, 0, Seq::empty());
    lemma_no_stray(pairs, n.keys, 0);
    let more = items_between(v, k, pairs.len() as int);
    assert(Seq::<Item>::empty() + more =~= more);
}

/// One segment of a path leads to a child.
proof fn lemma_one_segment(
    s: SchemaView,
    path: Seq<char>,
    parts: Seq<Seq<char>>,
    i: int,
    cur: usize,
    sid: int,
    seen: Seq<Item>,
    node: usize,
    pairs: Seq<(Seq<char>, Seq<char>)>,
    more: Seq<Item>,
)
    requires
        0 <= i < parts.len(),
        segment_name(parts[i]) == s.nodes[node as int].name,
        selectors_from(parts[i], index_from(parts[i], '[', 0)) == Ok::<
            Seq<(Seq<char>, Seq<char>)>,
            Seq<char>,
        >(pairs),
        child_of(s, cur, s.nodes[node as int].name) == Some(node),
        s.nodes[node as int].sid is Some,
        segment_encoded(s, path, s.nodes[node as int].name, node, pairs) == Ok::<
            Seq<Item>,
            Seq<char>,
        >(more),
    ensures
        path_walked(s, path, parts, i, cur, sid, seen) == path_walked(
            s,
            path,
            parts,
            i + 1,
            node,
            s.nodes[node as int].sid->0 as int,
            seen + more,
        ),
{
}

/// A path that was decoded is encoded as what it was decoded from, if all
/// nodes on the way are found by their names, all key values on the way read
/// back, what is shown of them can stand in a path, and no item was left over.
/// So it is as decoding gives it.
pub proof fn law_shown_path_reads_back(s: SchemaView, v: Item, d: Seq<DecimalView>)
    requires
        path_decoded(s, v, d) is Ok,
        ({
            let node = path_decoded(s, v, d)->Ok_0.0;
            &&& connected(s, node)
            &&& way_reads_back(s, v, node, d)
            &&& way_fits(s, v, node, d, true)
            &&& path_to(s, v, node, 1, d) matches Ok((_, k)) ==> k == path_len(v)
            &&& s.nodes[node as int].sid matches Some(sid) && (v == Item::Integer(sid as int) || (v
                matches Item::Array(a) && a.len() > 1 && a[0] == Item::Integer(sid as int)))
        }),
    ensures
        ({
            let (node, path) = path_decoded(s, v, d)->Ok_0;
            &&& path_encoded(s, path) == Ok::<(usize, Item), Seq<char>>((node, v))
            &&& path_settled(s, path, d)
        }),
{
    let (node, path) = path_decoded(s, v, d)->Ok_0;
    let segs = segments_to(s, v, node, d);
    lemma_way(s, v, node, d, true);
    lemma_path_parts(segs);
    assert(segs.subrange(0, segs.len() as int) =~= segs);
    lemma_walk(s, v, node, d, path, segs, true);
    let k = path_to(s, v, node, 1, d)->Ok_0.1;
    let sid = s.nodes[node as int].sid->0 as int;
    assert(path_item(sid, items_to(v, k)) == v) by {
        match v {
            Item::Array(a) => {
                assert(seq![Item::Integer(sid)] + a.subrange(1, a.len() as int) =~= a);
            },
            _ => {},
        }
    }
}

/// The selectors that are shown for a list have its first keys.
proof fn lemma_shown_names(
    s: SchemaView,
    v: Item,
    node: usize,
    j: int,
    k: int,
    d: Seq<DecimalView>,
)
    requires
        0 <= j <= s.nodes[node as int].keys.len(),
    ensures
        ({
            let pairs = pairs_shown(s, v, node, j, k, d);
            &&& pairs.len() <= s.nodes[node as int].keys.len() - j
            &&& forall|i: int|
                0 <= i < pairs.len() ==> (#[trigger] pairs[i]).0 == s.nodes[node as int].keys[j + i]
        }),
    decreases s.nodes[node as int].keys.len() - j,
{
    if j < s.nodes[node as int].keys.len() {
        lemma_shown_names(s, v, node, j + 1, k + 1, d);
        let pairs = pairs_shown(s, v, node, j, k, d);
        let rest = pairs_shown(s, v, node, j + 1, k + 1, d);
        assert forall|i: int| 0 <= i < pairs.len() implies (#[trigger] pairs[i]).0
            == s.nodes[node as int].keys[j + i] by {
            if i > 0 {
                assert(pairs[i] == rest[i - 1]);
                assert(j + 1 + (i - 1) == j + i);
            }
        }
    }
}

/// Plain names fit whatever the keys are.
proof fn lemma_plain_way(s: SchemaView, v: Item, node: usize, d: Seq<DecimalView>, last: bool)
    requires
        reachable(s, node),
    ensures
        connected(s, node),
        way_fits(s, v, node, d, last),
    decreases node,
{
    let n = s.nodes[node as int];
    let p = n.parent->0;
    if p != s.root {
        lemma_plain_way(s, v, p, d, false);
    }
    lemma_depth_same(n.name, 0, 0);
    if path_to(s, v, p, 1, d) is Ok {
        let k = path_to(s, v, p, 1, d)->Ok_0.1;
        let pairs = pairs_shown(s, v, node, 0, k, d);
        lemma_shown_names(s, v, node, 0, k, d);
        assert forall|i: int| 0 <= i < pairs.len() implies no_brackets((#[trigger] pairs[i]).0)
            && !pairs[i].0.contains('=') by {
            assert(pairs[i].0 == n.keys[0 + i]);
        }
        assert forall|j: int| 0 <= j < n.keys.len() implies selected(pairs, #[trigger] n.keys[j], 0)
            == (if j < pairs.len() {
            Some(pairs[j].1)
        } else {
            None
        }) by {
            assert forall|i: int| 0 <= i < pairs.len() implies (#[trigger] pairs[i]).0
                == n.keys[i] by {
                assert(pairs[i].0 == n.keys[0 + i]);
            }
            lemma_selected(pairs, n.keys, j, 0);
        }
    }
}

/// A path that was decoded is encoded as what it was decoded from, if all
/// nodes on the way can be reached by their names, all key values on the way
/// read back, and no item was left over. So it is as decoding gives it.
pub proof fn law_path_reads_back(s: SchemaView, v: Item, d: Seq<DecimalView>)
    requires
        path_decoded(s, v, d) is Ok,
        ({
            let node = path_decoded(s, v, d)->Ok_0.0;
            &&& reachable(s, node)
            &&& way_reads_back(s, v, node, d)
            &&& path_to(s, v, node, 1, d) matches Ok((_, k)) ==> k == path_len(v)
            &&& s.nodes[node as int].sid matches Some(sid) && (v == Item::Integer(sid as int) || (v
                matches Item::Array(a) && a.len() > 1 && a[0] == Item::Integer(sid as int)))
        }),
    ensures
        ({
            let (node, path) = path_decoded(s, v, d)->Ok_0;
            &&& path_encoded(s, path) == Ok::<(usize, Item), Seq<char>>((node, v))
            &&& path_settled(s, path, d)
        }),
{
    lemma_plain_way(s, v, path_decoded(s, v, d)->Ok_0.0, d, true);
    law_shown_path_reads_back(s, v, d);
}

/// The SID in an encoded path is that of the node that the path leads to.
pub(crate) proof fn lemma_walk_ends(
    s: SchemaView,
    path: Seq<char>,
    parts: Seq<Seq<char>>,
    i: int,
    cur: usize,
    sid: int,
    seen: Seq<Item>,
)
    requires
        0 <= i <= parts.len(),
        parts.len() > 0,
        i > 0 ==> s.nodes[cur as int].sid is Some && s.nodes[cur as int].sid->0 == sid,
        path_walked(s, path, parts, i, cur, sid, seen) is Ok,
    ensures
        ({
            let (node, item) = path_walked(s, path, parts, i, cur, sid, seen)->Ok_0;
            s.nodes[node as int].sid matches Some(n) && path_sid(item) == Ok::<int, Seq<char>>(
                n as int,
            )
        }),
    decreases parts.len() - i,
{
    if i < parts.len() {
        let name = segment_name(parts[i]);
        let keys = selectors_from(parts[i], index_from(parts[i], '[', 0))->Ok_0;
        let child = child_of(s, cur, name)->0;
        let n = s.nodes[child as int].sid->0;
        let more = segment_encoded(s, path, name, child, keys)->Ok_0;
        lemma_one_step(s, path, parts, i, cur, sid, seen);
        lemma_walk_ends(s, path, parts, i + 1, child, n as int, seen + more);
    } else {
        assert(signed_low(sid) == sid);
    }
}

/// One segment of a path that leads somewhere.
pub(crate) proof fn lemma_one_step(
    s: SchemaView,
    path: Seq<char>,
    parts: Seq<Seq<char>>,
    i: int,
    cur: usize,
    sid: int,
    seen: Seq<Item>,
)
    requires
        0 <= i < parts.len(),
        path_walked(s, path, parts, i, cur, sid, seen) is Ok,
    ensures
        ({
            let name = segment_name(parts[i]);
            let keys = selectors_from(parts[i], index_from(parts[i], '[', 0))->Ok_0;
            let child = child_of(s, cur, name)->0;
            let n = s.nodes[child as int].sid->0;
            let more = segment_encoded(s, path, name, child, keys)->Ok_0;
            &&& s.nodes[child as int].sid is Some
            &&& path_walked(s, path, parts, i, cur, sid, seen) == path_walked(
                s,
                path,
                parts,
                i + 1,
                child,
                n as int,
                seen + more,
            )
        }),
{
}

/// An encoded path leads to the node that the path itself leads to, if that
/// node is found by its SID. The empty path, which has no SID to tell, is left
/// out.
pub proof fn law_encoded_path_leads_to_its_node(
    s: SchemaView,
    path: Seq<char>,
    d: Seq<DecimalView>,
)
    requires
        path_encoded(s, path) is Ok,
        found_by_sid(s, path_encoded(s, path)->Ok_0.0),
        path_parts(path).len() > 0,
    ensures
        path_decoded(s, path_encoded(s, path)->Ok_0.1, d) matches Ok((node, _)) ==> node
            == path_encoded(s, path)->Ok_0.0,
{
    lemma_walk_ends(s, path, path_parts(path), 0, s.root, 0, Seq::empty());
}

} // verus!
