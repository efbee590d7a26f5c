//! What paths with selectors mean.
use vstd::prelude::*;

use crate::cbor::value::Item;
use crate::json::Tree;
use crate::text::{index_from, number_in, segments};
use crate::text_laws::{free_of, law_ends_are_trimmed, law_segments_hold_something, law_white_space};
use crate::yang::choices::governing_builtin;
use crate::yang::schema::{child_of, Builtin, SchemaView};
use crate::yang::values::{
    key_tree, keys_encoded, parts_from, path_encoded, path_parts, path_walked, segment_encoded,
    segment_name, selected, selectors_from, stray_selector, unquoted, value_encoded,
};

verus! {

/// The parts of the rest of a path without brackets.
proof fn lemma_plain_parts(path: Seq<char>, i: int, start: int)
    requires
        0 <= start <= i <= path.len(),
        free_of(path, '['),
        free_of(path, ']'),
        free_of(path.subrange(start, i), '/'),
    ensures
        parts_from(path, i, 0, start) == segments(path.subrange(start, path.len() as int), '/'),
    decreases path.len() - i,
{
    let n = path.len() as int;
    let x = path.subrange(start, i);
    let s = path.subrange(start, n);
    if i >= n {
        assert(x =~= s);
        law_segments_hold_something(x, '/', Seq::empty());
        if start >= n {
            assert(segments(x, '/') =~= Seq::empty());
        }
    } else if path[i] == '/' {
        let rest = path.subrange(i + 1, n);
        assert(path.subrange(i + 1, i + 1) =~= Seq::empty());
        lemma_plain_parts(path, i + 1, i + 1);
        assert(s =~= x + seq!['/'] + rest);
        law_segments_hold_something(x, '/', rest);
        if start >= i {
            assert(parts_from(path, i, 0, start) =~= segments(s, '/'));
        }
    } else {
        let y = path.subrange(start, i + 1);
        assert forall|k: int| 0 <= k < y.len() implies #[trigger] y[k] != '/' by {
            if k < x.len() {
                assert(y[k] == x[k]);
            }
        }
        lemma_plain_parts(path, i + 1, start);
    }
}

/// The parts of a path without selectors are what stands between its slashes.
pub proof fn law_paths_split_at_slashes(path: Seq<char>)
    requires
        free_of(path, '['),
        free_of(path, ']'),
    ensures
        path_parts(path) == segments(path, '/'),
{
    assert(path.subrange(0, 0) =~= Seq::empty());
    assert(path.subrange(0, path.len() as int) =~= path);
    lemma_plain_parts(path, 0, 0);
}

/// Characters that are neither bracket nor, outside brackets, slash are passed.
proof fn lemma_passed(path: Seq<char>, i: int, j: int, depth: int, start: int)
    requires
        0 <= i <= j <= path.len(),
        forall|k: int|
            i <= k < j ==> #[trigger] path[k] != '[' && path[k] != ']' && (path[k] != '/' || depth
                != 0),
    ensures
        parts_from(path, i, depth, start) == parts_from(path, j, depth, start),
    decreases j - i,
{
    if i < j {
        lemma_passed(path, i + 1, j, depth, start);
    }
}

/// A slash in brackets does not part a path.
pub proof fn law_slashes_in_brackets_do_not_part(name: Seq<char>, inner: Seq<char>)
    requires
        free_of(name, '/'),
        free_of(name, '['),
        free_of(name, ']'),
        free_of(inner, '['),
        free_of(inner, ']'),
    ensures
        path_parts("/"@ + name + "["@ + inner + "]"@) == seq![name + "["@ + inner + "]"@],
{
    reveal_strlit("/");
    reveal_strlit("[");
    reveal_strlit("]");
    let x = name + "["@ + inner + "]"@;
    let path = "/"@ + name + "["@ + inner + "]"@;
    let a = 1 + name.len() as int;
    let b = a + 1 + inner.len();
    let n = path.len() as int;
    assert(path[0] == '/');
    assert forall|k: int| 1 <= k < a implies #[trigger] path[k] == name[k - 1] by {}
    assert forall|k: int| a + 1 <= k < b implies #[trigger] path[k] == inner[k - a - 1] by {}
    assert(path[a] == '[' && path[b] == ']' && n == b + 1);
    assert(parts_from(path, n, 0, 1) == seq![path.subrange(1, n)]);
    assert(parts_from(path, b, 1, 1) == parts_from(path, n, 0, 1));
    lemma_passed(path, a + 1, b, 1, 1);
    assert(parts_from(path, a, 0, 1) == parts_from(path, a + 1, 1, 1));
    lemma_passed(path, 1, a, 0, 1);
    assert(path.subrange(1, n) =~= x);
    assert(parts_from(path, 0, 0, 0) =~= parts_from(path, 1, 0, 1));
}

/// The first place of a character.
proof fn lemma_index(s: Seq<char>, c: char, from: int, to: int)
    requires
        0 <= from <= to <= s.len(),
        forall|k: int| from <= k < to ==> #[trigger] s[k] != c,
        to < s.len() ==> s[to] == c,
    ensures
        index_from(s, c, from) == to,
    decreases to - from,
{
    if from < to {
        lemma_index(s, c, from + 1, to);
    }
}

/// A selector is a key, an equals sign and a value, which may stand in quotes;
/// what stands before its bracket is the name. Without a bracket all is the name.
pub proof fn law_selectors_are_read(name: Seq<char>, key: Seq<char>, v: Seq<char>, q: char)
    requires
        free_of(name, '['),
        free_of(key, '='),
        free_of(key, ']'),
        free_of(v, ']'),
        q == '\'' || q == '"',
    ensures
        ({
            let seg = name + "["@ + key + "="@ + seq![q] + v + seq![q] + "]"@;
            &&& segment_name(seg) == name
            &&& selectors_from(seg, index_from(seg, '[', 0)) == Ok::<
                Seq<(Seq<char>, Seq<char>)>,
                Seq<char>,
            >(seq![(key, v)])
            &&& segment_name(name) == name
            &&& selectors_from(name, index_from(name, '[', 0)) == Ok::<
                Seq<(Seq<char>, Seq<char>)>,
                Seq<char>,
            >(Seq::empty())
        }),
{
    reveal_strlit("[");
    reveal_strlit("=");
    reveal_strlit("]");
    let seg = name + "["@ + key + "="@ + seq![q] + v + seq![q] + "]"@;
    let value = seq![q] + v + seq![q];
    let inner = key + "="@ + value;
    let a = name.len() as int;
    let b = a + 1 + inner.len();
    assert(seg.len() == b + 1);
    assert(seg =~= name + seq!['['] + inner + seq![']']);
    assert forall|k: int| 0 <= k < a implies #[trigger] seg[k] != '[' by {
        assert(seg[k] == name[k]);
    }
    assert(seg[a] == '[');
    assert(seg[b] == ']');
    assert forall|k: int| a <= k < b implies #[trigger] seg[k] != ']' by {
        if k > a {
            assert(seg[k] == inner[k - a - 1]);
            let j = k - a - 1;
            if j < key.len() {
                assert(inner[j] == key[j]);
            } else if j > key.len() {
                assert(inner[j] == value[j - key.len() - 1]);
                let t = j - key.len() - 1;
                if 1 <= t < value.len() - 1 {
                    assert(value[t] == v[t - 1]);
                }
            }
        }
    }
    lemma_index(seg, '[', 0, a);
    lemma_index(seg, '[', a, a);
    lemma_index(seg, ']', a, b);
    assert(seg.subrange(a + 1, b) =~= inner);
    assert(seg.subrange(0, a) =~= name);
    assert forall|k: int| 0 <= k < key.len() implies #[trigger] inner[k] != '=' by {
        assert(inner[k] == key[k]);
    }
    assert(inner[key.len() as int] == '=');
    lemma_index(inner, '=', 0, key.len() as int);
    assert(inner.subrange(0, key.len() as int) =~= key);
    assert(inner.subrange(key.len() + 1int, inner.len() as int) =~= value);
    law_white_space(q);
    assert(value[0] == q && value.last() == q);
    let none = Seq::<char>::empty();
    law_ends_are_trimmed(none, value, none);
    assert(none + value + none =~= value);
    assert(value.subrange(1, value.len() - 1) =~= v);
    assert(unquoted(value) == v);
    lemma_index(seg, '[', b + 1, b + 1);
    assert(selectors_from(seg, b + 1) == Ok::<Seq<(Seq<char>, Seq<char>)>, Seq<char>>(
        Seq::empty(),
    ));
    assert(seq![(key, v)] + Seq::<(Seq<char>, Seq<char>)>::empty() =~= seq![(key, v)]);
    lemma_index(name, '[', 0, a);
    lemma_index(name, '[', a, a);
    assert(name.subrange(0, a) =~= name);
}

/// A selector without an equals sign, and one that is not closed, is refused.
pub proof fn law_other_selectors_are_refused(name: Seq<char>, inner: Seq<char>)
    requires
        free_of(name, '['),
        free_of(inner, ']'),
    ensures
        selectors_from(name + "["@ + inner, name.len() as int) is Err,
        free_of(inner, '=') ==> selectors_from(
            name + "["@ + inner + "]"@,
            name.len() as int,
        ) is Err,
{
    reveal_strlit("[");
    reveal_strlit("]");
    let open = name + "["@ + inner;
    let a = name.len() as int;
    assert(open[a] == '[');
    lemma_index(open, '[', a, a);
    assert forall|k: int| a <= k < open.len() implies #[trigger] open[k] != ']' by {
        if k > a {
            assert(open[k] == inner[k - a - 1]);
        }
    }
    lemma_index(open, ']', a, open.len() as int);
    if free_of(inner, '=') {
        let seg = open + "]"@;
        let b = open.len() as int;
        assert(seg[a] == '[' && seg[b] == ']');
        lemma_index(seg, '[', a, a);
        assert forall|k: int| a <= k < b implies #[trigger] seg[k] != ']' by {
            assert(seg[k] == open[k]);
        }
        lemma_index(seg, ']', a, b);
        assert(seg.subrange(a + 1, b) =~= inner);
        lemma_index(inner, '=', 0, inner.len() as int);
    }
}

/// The text of a key is read by the type of the key: whole numbers of at most 32
/// bits in digits, truth values by their names, and all else as it stands.
pub proof fn law_keys_are_read_by_their_type(s: SchemaView, t: usize, raw: Seq<char>)
    ensures
        ({
            let b = governing_builtin(s, t);
            let signed = b == Builtin::Int8 || b == Builtin::Int16 || b == Builtin::Int32;
            let unsigned = b == Builtin::Uint8 || b == Builtin::Uint16 || b == Builtin::Uint32;
            &&& signed ==> match number_in(raw, -0x8000_0000_0000_0000, 0x7FFF_FFFF_FFFF_FFFF) {
                Some(n) => key_tree(s, t, raw) == Ok::<Tree, Seq<char>>(Tree::Integer(n)),
                None => key_tree(s, t, raw) is Err,
            }
            &&& unsigned ==> match number_in(raw, 0, 0xFFFF_FFFF_FFFF_FFFF) {
                Some(n) => key_tree(s, t, raw) == Ok::<Tree, Seq<char>>(Tree::Integer(n)),
                None => key_tree(s, t, raw) is Err,
            }
            &&& b == Builtin::Boolean && raw == "true"@ ==> key_tree(s, t, raw) == Ok::<
                Tree,
                Seq<char>,
            >(Tree::Bool(true))
            &&& b == Builtin::Boolean && raw == "false"@ ==> key_tree(s, t, raw) == Ok::<
                Tree,
                Seq<char>,
            >(Tree::Bool(false))
            &&& b == Builtin::Boolean && raw != "true"@ && raw != "false"@ ==> key_tree(s, t, raw)
                is Err
            &&& !signed && !unsigned && b != Builtin::Boolean && b != Builtin::Empty ==> key_tree(
                s,
                t,
                raw,
            ) == Ok::<Tree, Seq<char>>(Tree::Text(raw))
        }),
{
    reveal_strlit("true");
    reveal_strlit("false");
    assert("true"@.len() == 4 && "false"@.len() == 5);
}

/// A path of one name leads to the child of that name and is sent as its SID
/// alone, whether or not it is a list. What there is not, and what has no SID,
/// is refused.
pub proof fn law_names_are_sent_as_sids(s: SchemaView, name: Seq<char>)
    requires
        name.len() > 0,
        free_of(name, '/'),
        free_of(name, '['),
        free_of(name, ']'),
    ensures
        match child_of(s, s.root, name) {
            Some(c) => match s.nodes[c as int].sid {
                Some(sid) => path_encoded(s, "/"@ + name) == Ok::<(usize, Item), Seq<char>>(
                    (c, Item::Integer(sid as int)),
                ),
                None => path_encoded(s, "/"@ + name) is Err,
            },
            None => path_encoded(s, "/"@ + name) is Err,
        },
{
    reveal_strlit("/");
    let path = "/"@ + name;
    let none = Seq::<char>::empty();
    assert forall|k: int| 0 <= k < path.len() implies #[trigger] path[k] != '[' && path[k] != ']' by {
        if k > 0 {
            assert(path[k] == name[k - 1]);
        }
    }
    law_paths_split_at_slashes(path);
    assert(path =~= none + seq!['/'] + name);
    law_segments_hold_something(none, '/', name);
    law_segments_hold_something(name, '/', none);
    let parts = path_parts(path);
    assert(parts =~= seq![name]);
    law_selectors_are_read(name, none, none, '\'');
    if let Some(c) = child_of(s, s.root, name) {
        lemma_nothing_selected(s, path, name, c, 0, Seq::empty());
        assert(segment_encoded(s, path, name, c, Seq::empty()) == Ok::<Seq<Item>, Seq<char>>(
            Seq::empty(),
        ));
        if let Some(sid) = s.nodes[c as int].sid {
            assert(Seq::<Item>::empty() + Seq::<Item>::empty() =~= Seq::<Item>::empty());
            assert(path_walked(s, path, parts, 1, c, sid as int, Seq::empty()) == Ok::<
                (usize, Item),
                Seq<char>,
            >((c, Item::Integer(sid as int))));
        }
    }
}

/// Where nothing is selected there are no key values.
proof fn lemma_nothing_selected(
    s: SchemaView,
    path: Seq<char>,
    name: Seq<char>,
    list: usize,
    j: int,
    seen: Seq<Item>,
)
    requires
        0 <= j,
    ensures
        keys_encoded(s, path, name, list, Seq::empty(), j, seen) == Ok::<Seq<Item>, Seq<char>>(seen),
    decreases s.nodes[list as int].keys.len() - j,
{
    if j < s.nodes[list as int].keys.len() {
        lemma_nothing_selected(s, path, name, list, j + 1, seen);
    }
}

/// The entry of a list with one key is sent as a list of the SID and the value
/// of the key.
pub proof fn law_entries_are_sent_with_their_keys(
    s: SchemaView,
    name: Seq<char>,
    key: Seq<char>,
    v: Seq<char>,
    c: usize,
    kc: usize,
    t: usize,
    sid: i64,
    item: Item,
)
    requires
        name.len() > 0,
        free_of(name, '/'),
        free_of(name, '['),
        free_of(name, ']'),
        free_of(key, '='),
        free_of(key, ']'),
        free_of(key, '['),
        free_of(v, ']'),
        free_of(v, '['),
        child_of(s, s.root, name) == Some(c),
        s.nodes[c as int].sid == Some(sid),
        s.nodes[c as int].keys == seq![key],
        child_of(s, c, key) == Some(kc),
        s.nodes[kc as int].type_id == Some(t),
        governing_builtin(s, t) == Builtin::String,
        value_encoded(s, t, Tree::Text(v), false) == Ok::<Item, Seq<char>>(item),
    ensures
        path_encoded(s, "/"@ + name + "["@ + key + "="@ + seq!['\''] + v + seq!['\''] + "]"@) == Ok::<
            (usize, Item),
            Seq<char>,
        >((c, Item::Array(seq![Item::Integer(sid as int), item]))),
{
    reveal_strlit("/");
    reveal_strlit("[");
    reveal_strlit("]");
    reveal_strlit("=");
    let q = seq!['\''];
    let inner = key + "="@ + q + v + q;
    let path = "/"@ + name + "["@ + key + "="@ + q + v + q + "]"@;
    let seg = name + "["@ + key + "="@ + q + v + q + "]"@;
    assert forall|k: int| 0 <= k < inner.len() implies #[trigger] inner[k] != '[' && inner[k] != ']' by {
        if k < key.len() {
            assert(inner[k] == key[k]);
        } else if key.len() + 2 <= k < key.len() + 2 + v.len() {
            assert(inner[k] == v[k - key.len() - 2]);
        }
    }
    law_slashes_in_brackets_do_not_part(name, inner);
    assert("/"@ + name + "["@ + inner + "]"@ =~= path);
    assert(name + "["@ + inner + "]"@ =~= seg);
    let parts = path_parts(path);
    assert(parts[0] == seg && parts.len() == 1);
    law_selectors_are_read(name, key, v, '\'');
    let keys = seq![(key, v)];
    let wanted = s.nodes[c as int].keys;
    assert(wanted[0] == key && keys[0] == (key, v));
    assert(selected(keys, key, 0) == Some(v));
    law_keys_are_read_by_their_type(s, t, v);
    assert(path.len() > v.len());
    let one = Seq::<Item>::empty().push(item);
    assert(keys_encoded(s, path, name, c, keys, 1, one) == Ok::<Seq<Item>, Seq<char>>(one));
    assert(keys_encoded(s, path, name, c, keys, 0, Seq::empty()) == Ok::<Seq<Item>, Seq<char>>(
        one,
    ));
    assert(crate::text::find_text(wanted, key, 0) == Some(0int));
    assert(stray_selector(keys, wanted, 1) is None);
    assert(stray_selector(keys, wanted, 0) is None);
    assert(segment_encoded(s, path, name, c, keys) == Ok::<Seq<Item>, Seq<char>>(one));
    assert(Seq::<Item>::empty() + one =~= one);
    assert(seq![Item::Integer(sid as int)] + one =~= seq![Item::Integer(sid as int), item]);
    assert(path_walked(s, path, parts, 1, c, sid as int, one) == Ok::<(usize, Item), Seq<char>>(
        (c, Item::Array(seq![Item::Integer(sid as int), item])),
    ));
}

/// The values of keys go in the order of the list, whatever the order of the
/// selectors.
pub proof fn law_keys_go_in_the_order_of_the_list(
    s: SchemaView,
    path: Seq<char>,
    name: Seq<char>,
    list: usize,
    a: Seq<char>,
    b: Seq<char>,
    x: Seq<char>,
    y: Seq<char>,
    ca: usize,
    cb: usize,
    ta: usize,
    tb: usize,
    ix: Item,
    iy: Item,
)
    requires
        a != b,
        s.nodes[list as int].keys == seq![a, b],
        child_of(s, list, a) == Some(ca),
        child_of(s, list, b) == Some(cb),
        s.nodes[ca as int].type_id == Some(ta),
        s.nodes[cb as int].type_id == Some(tb),
        governing_builtin(s, ta) == Builtin::String,
        governing_builtin(s, tb) == Builtin::String,
        value_encoded(s, ta, Tree::Text(x), false) == Ok::<Item, Seq<char>>(ix),
        value_encoded(s, tb, Tree::Text(y), false) == Ok::<Item, Seq<char>>(iy),
        x.len() < path.len(),
        y.len() < path.len(),
    ensures
        keys_encoded(s, path, name, list, seq![(a, x), (b, y)], 0, Seq::empty()) == Ok::<
            Seq<Item>,
            Seq<char>,
        >(seq![ix, iy]),
        keys_encoded(s, path, name, list, seq![(b, y), (a, x)], 0, Seq::empty()) == Ok::<
            Seq<Item>,
            Seq<char>,
        >(seq![ix, iy]),
{
    lemma_two_keys(s, path, name, list, seq![(a, x), (b, y)], a, b, x, y, ca, cb, ta, tb, ix, iy, 0);
    lemma_two_keys(s, path, name, list, seq![(b, y), (a, x)], a, b, x, y, ca, cb, ta, tb, ix, iy, 1);
}

/// The values of two keys.
proof fn lemma_two_keys(
    s: SchemaView,
    path: Seq<char>,
    name: Seq<char>,
    list: usize,
    keys: Seq<(Seq<char>, Seq<char>)>,
    a: Seq<char>,
    b: Seq<char>,
    x: Seq<char>,
    y: Seq<char>,
    ca: usize,
    cb: usize,
    ta: usize,
    tb: usize,
    ix: Item,
    iy: Item,
    first: int,
)
    requires
        a != b,
        first == 0 && keys == seq![(a, x), (b, y)] || first == 1 && keys == seq![(b, y), (a, x)],
        s.nodes[list as int].keys == seq![a, b],
        child_of(s, list, a) == Some(ca),
        child_of(s, list, b) == Some(cb),
        s.nodes[ca as int].type_id == Some(ta),
        s.nodes[cb as int].type_id == Some(tb),
        governing_builtin(s, ta) == Builtin::String,
        governing_builtin(s, tb) == Builtin::String,
        value_encoded(s, ta, Tree::Text(x), false) == Ok::<Item, Seq<char>>(ix),
        value_encoded(s, tb, Tree::Text(y), false) == Ok::<Item, Seq<char>>(iy),
        x.len() < path.len(),
        y.len() < path.len(),
    ensures
        keys_encoded(s, path, name, list, keys, 0, Seq::empty()) == Ok::<Seq<Item>, Seq<char>>(
            seq![ix, iy],
        ),
{
    let wanted = s.nodes[list as int].keys;
    assert(wanted[0] == a && wanted[1] == b);
    assert(keys[first] == (a, x) && keys[1 - first] == (b, y));
    assert(selected(keys, a, 1) == (if first == 1 {
        Some(x)
    } else {
        selected(keys, a, 2)
    }));
    assert(selected(keys, a, 0) == Some(x));
    assert(selected(keys, b, 1) == (if first == 0 {
        Some(y)
    } else {
        selected(keys, b, 2)
    }));
    assert(selected(keys, b, 0) == Some(y));
    law_keys_are_read_by_their_type(s, ta, x);
    law_keys_are_read_by_their_type(s, tb, y);
    let one = Seq::<Item>::empty().push(ix);
    let two = one.push(iy);
    assert(two =~= seq![ix, iy]);
    assert(keys_encoded(s, path, name, list, keys, 2, two) == Ok::<Seq<Item>, Seq<char>>(two));
    assert(keys_encoded(s, path, name, list, keys, 1, one) == Ok::<Seq<Item>, Seq<char>>(two));
}

} // verus!
