//! What is sent where errors are passed over, and which decimals are listed.
use vstd::prelude::*;

use crate::cbor::value::Item;
use crate::json::{find_key, Tree};
use crate::json_laws::law_members_by_key;
use crate::text::{decimal_text, local_of};
use crate::text_laws::law_the_first_is_found;
use crate::yang::bodies::{
    body_decoded, body_encoded, fields_encoded, has_sid, node_decoded, node_encoded, ContentFormat,
};
use crate::yang::codec::{decimals_among, decimals_in, tree_encoded};
use crate::yang::readings::passed_on;
use crate::yang::scalars::{signed_low, DecimalView};
use crate::yang::schema::{child_of, SchemaView};
use crate::yang::tree_laws::{is_needed, law_missing_fields};
use crate::yang::values::{generic_item, value_encoded};

verus! {

/// A value that its type refuses is sent as it is where errors are passed over,
/// and refused with the same error where they are not.
pub proof fn law_refused_values_are_sent_as_they_are(
    s: SchemaView,
    node: usize,
    t: usize,
    v: Tree,
    cf: ContentFormat,
    e: Seq<char>,
)
    requires
        s.nodes[node as int].kw == "leaf"@,
        s.nodes[node as int].type_id == Some(t),
        value_encoded(s, t, v, false) == Err::<Item, Seq<char>>(e),
    ensures
        node_encoded(s, node, v, cf, true) == Ok::<Item, Seq<char>>(generic_item(v)),
        node_encoded(s, node, v, cf, false) == Err::<Item, Seq<char>>(e),
{
}

/// As it is means: lists and objects part by part, names as texts, and numbers
/// that are no whole numbers of 64 bits by their text.
pub proof fn law_values_as_they_are(
    a: Seq<Tree>,
    m: Seq<(Seq<char>, Tree)>,
    n: int,
    t: Seq<char>,
    i: int,
)
    ensures
        generic_item(Tree::Array(a)) matches Item::Array(r) && r.len() == a.len() && (0 <= i
            < a.len() ==> r[i] == generic_item(a[i])),
        generic_item(Tree::Object(m)) matches Item::Entries(r) && r.len() == m.len() && (0 <= i
            < m.len() ==> r[i] == (Item::Text(m[i].0), generic_item(m[i].1))),
        generic_item(Tree::Float(t)) == Item::Text(t),
        n < i64::MIN || n > u64::MAX ==> generic_item(Tree::Integer(n)) == Item::Text(
            decimal_text(n),
        ),
{
}

/// A field that there is not, or that has no SID, is left out where errors are
/// passed over.
pub proof fn law_unknown_fields_are_left_out(
    s: SchemaView,
    scope: usize,
    key: Seq<char>,
    v: Tree,
    cf: ContentFormat,
)
    requires
        child_of(s, scope, key) matches Some(c) ==> s.nodes[c as int].sid is None,
    ensures
        body_encoded(s, scope, seq![(key, v)], cf, true) == Ok::<Item, Seq<char>>(
            Item::Entries(Seq::empty()),
        ),
        body_encoded(s, scope, seq![(key, v)], cf, false) is Err,
{
    let m = seq![(key, v)];
    assert(m[0] == (key, v));
    let none = Seq::<(Item, Item)>::empty();
    assert(fields_encoded(s, scope, m, 1, cf, true, none) == Ok::<Seq<(Item, Item)>, Seq<char>>(
        none,
    ));
    assert(fields_encoded(s, scope, m, 0, cf, true, none) == Ok::<Seq<(Item, Item)>, Seq<char>>(
        none,
    ));
}

/// Where errors are passed over, what should be an object and is none becomes an
/// empty table, and what should be a list and is none an empty list.
pub proof fn law_other_shapes_are_emptied(s: SchemaView, node: usize, v: Tree, cf: ContentFormat)
    requires
        !(v is Object),
        !(v is Array),
    ensures
        s.nodes[node as int].kw == "container"@ ==> node_encoded(s, node, v, cf, true) == Ok::<
            Item,
            Seq<char>,
        >(Item::Entries(Seq::empty())) && node_encoded(s, node, v, cf, false) is Err,
        s.nodes[node as int].kw == "list"@ ==> node_encoded(s, node, v, cf, true) == Ok::<
            Item,
            Seq<char>,
        >(Item::Array(Seq::empty())) && node_encoded(s, node, v, cf, false) is Err,
        tree_encoded(s, v, cf, true) == Ok::<Item, Seq<char>>(Item::Entries(Seq::empty())),
        tree_encoded(s, v, cf, false) is Err,
{
    reveal_strlit("leaf");
    reveal_strlit("leaf-list");
    reveal_strlit("container");
    reveal_strlit("input");
    reveal_strlit("output");
    reveal_strlit("list");
    assert("list"@.len() == 4 && "leaf"@.len() == 4 && "leaf-list"@.len() == 9 && "container"@.len()
        == 9 && "input"@.len() == 5 && "output"@.len() == 6);
    assert("list"@[1] == 'i' && "leaf"@[1] == 'e' && "leaf-list"@[0] == 'l' && "container"@[0]
        == 'c');
}

/// A decimal is listed by its exponent and its mantissa.
pub proof fn law_decimals_are_listed(e: int, m: int)
    requires
        i64::MIN <= e <= i64::MAX,
    ensures
        decimals_in(
            Item::Tag(4, Box::new(Item::Array(seq![Item::Integer(e), Item::Integer(m)]))),
        ) == seq![(e, m)],
{
    let a = seq![Item::Integer(e), Item::Integer(m)];
    assert(a[0] == Item::Integer(e) && a[1] == Item::Integer(m));
    assert(signed_low(e) == e);
}

/// The decimals of a list are those of its items, one after the other, and those
/// of a table are those of its keys and values.
pub proof fn law_decimals_of_groups(
    a: Seq<Item>,
    x: Item,
    m: Seq<(Item, Item)>,
    k: Item,
    v: Item,
)
    ensures
        decimals_in(Item::Array(Seq::empty())).len() == 0,
        decimals_in(Item::Array(a.push(x))) == decimals_in(Item::Array(a)) + decimals_in(x),
        decimals_in(Item::Entries(Seq::empty())).len() == 0,
        decimals_in(Item::Entries(m.push((k, v)))) == decimals_in(Item::Entries(m)) + decimals_in(k)
            + decimals_in(v),
{
    assert(decimals_among(Item::Array(Seq::empty()), 0).len() == 0);
    assert(decimals_among(Item::Entries(Seq::empty()), 0).len() == 0);
    let b = a.push(x);
    let n = m.push((k, v));
    lemma_array(a, b, a.len() as int);
    lemma_entries(m, n, m.len() as int);
    assert(b[a.len() as int] == x);
    assert(n[m.len() as int] == (k, v));
    assert(decimals_among(Item::Array(b), b.len() as int) == decimals_among(
        Item::Array(b),
        a.len() as int,
    ) + decimals_in(x));
    assert(decimals_among(Item::Entries(n), n.len() as int) == decimals_among(
        Item::Entries(n),
        m.len() as int,
    ) + decimals_in(k) + decimals_in(v));
}

/// Further items do not change what the first hold.
proof fn lemma_array(a: Seq<Item>, b: Seq<Item>, n: int)
    requires
        0 <= n <= a.len() <= b.len(),
        forall|i: int| 0 <= i < a.len() ==> #[trigger] a[i] == b[i],
    ensures
        decimals_among(Item::Array(a), n) == decimals_among(Item::Array(b), n),
    decreases n,
{
    if n > 0 {
        lemma_array(a, b, n - 1);
        assert(a[n - 1] == b[n - 1]);
        assert(decimals_among(Item::Array(a), n) == decimals_among(Item::Array(a), n - 1)
            + decimals_in(a[n - 1]));
        assert(decimals_among(Item::Array(b), n) == decimals_among(Item::Array(b), n - 1)
            + decimals_in(b[n - 1]));
    }
}

/// Further entries do not change what the first hold.
proof fn lemma_entries(a: Seq<(Item, Item)>, b: Seq<(Item, Item)>, n: int)
    requires
        0 <= n <= a.len() <= b.len(),
        forall|i: int| 0 <= i < a.len() ==> #[trigger] a[i] == b[i],
    ensures
        decimals_among(Item::Entries(a), n) == decimals_among(Item::Entries(b), n),
    decreases n,
{
    if n > 0 {
        lemma_entries(a, b, n - 1);
        assert(a[n - 1] == b[n - 1]);
        assert(decimals_among(Item::Entries(a), n) == decimals_among(Item::Entries(a), n - 1)
            + decimals_in(a[n - 1].0) + decimals_in(a[n - 1].1));
        assert(decimals_among(Item::Entries(b), n) == decimals_among(Item::Entries(b), n - 1)
            + decimals_in(b[n - 1].0) + decimals_in(b[n - 1].1));
    }
}

/// Whether an object has a member with a name.
pub open spec fn has_member(m: Seq<(Seq<char>, Tree)>, name: Seq<char>) -> bool {
    exists|i: int| 0 <= i < m.len() && (#[trigger] m[i]).0 == name
}

/// Data that is taken has all keys of its list and all mandatory fields, but for
/// those that are no configuration where a device is changed.
pub proof fn law_keys_and_mandatory_fields_are_needed(
    s: SchemaView,
    scope: usize,
    m: Seq<(Seq<char>, Tree)>,
    cf: ContentFormat,
    k: int,
)
    requires
        0 <= k < s.nodes[scope as int].children.len(),
        ({
            let n = s.nodes[scope as int];
            let c = s.nodes[n.children[k] as int];
            &&& c.mandatory || n.keys.contains(local_of(c.name))
            &&& c.config || (cf != ContentFormat::Put && cf != ContentFormat::Ipatch)
        }),
        !has_member(m, s.nodes[s.nodes[scope as int].children[k] as int].name),
    ensures
        body_encoded(s, scope, m, cf, false) is Err,
{
    let n = s.nodes[scope as int];
    let c = s.nodes[n.children[k] as int];
    law_missing_fields(s, scope, m, cf, 0);
    law_the_first_is_found(n.keys, local_of(c.name), 0);
    law_members_by_key(m, c.name, 0);
    if n.keys.contains(local_of(c.name)) {
        let j = choose|j: int| 0 <= j < n.keys.len() && n.keys[j] == local_of(c.name);
        assert(n.keys[j] == local_of(c.name));
    }
    assert(is_needed(s, scope, k, cf));
    if let Some(i) = find_key(m, c.name, 0) {
        assert(m[i].0 == c.name);
    }
}

/// Whether one of some children has a SID.
pub open spec fn one_has_sid(s: SchemaView, children: Seq<usize>, sid: int) -> bool {
    exists|i: int|
        0 <= i < children.len() && (s.nodes[#[trigger] children[i] as int].sid matches Some(n) && n
            == sid)
}

/// A SID is found among children exactly where one has it.
proof fn lemma_has_sid(s: SchemaView, children: Seq<usize>, sid: int, from: int)
    requires
        0 <= from <= children.len(),
    ensures
        has_sid(s, children, sid, from) <==> exists|i: int|
            from <= i < children.len() && (s.nodes[#[trigger] children[i] as int].sid matches Some(n)
                && n == sid),
    decreases children.len() - from,
{
    if from < children.len() {
        lemma_has_sid(s, children, sid, from + 1);
        if exists|i: int|
            from <= i < children.len() && (s.nodes[#[trigger] children[i] as int].sid matches Some(n)
                && n == sid) {
            let i = choose|i: int|
                from <= i < children.len() && (s.nodes[#[trigger] children[i] as int].sid matches Some(
                    n,
                ) && n == sid);
            if i > from {
                assert(from + 1 <= i < children.len());
            }
        }
        if has_sid(s, children, sid, from) && !has_sid(s, children, sid, from + 1) {
            assert(s.nodes[children[from] as int].sid matches Some(n) && n == sid);
        }
    }
}

/// What a device sends of an operation is shown under the side that its first
/// field belongs to, counted from the SID of the operation; the input goes
/// first. What belongs to neither is refused, and nothing is an empty object.
pub proof fn law_operations_are_shown_by_side(
    s: SchemaView,
    node: usize,
    input: usize,
    output: usize,
    base: i64,
    k: int,
    e: Seq<(Item, Item)>,
    cf: ContentFormat,
    d: Seq<DecimalView>,
)
    requires
        s.nodes[node as int].kw == "rpc"@ || s.nodes[node as int].kw == "action"@,
        s.nodes[node as int].sid == Some(base),
        child_of(s, node, "input"@) == Some(input),
        child_of(s, node, "output"@) == Some(output),
        e.len() > 0,
        e[0].0 == Item::Integer(k),
        i64::MIN <= k <= i64::MAX,
        i64::MIN <= base + k <= i64::MAX,
    ensures
        ({
            let v = Item::Entries(e);
            let ins = one_has_sid(s, s.nodes[input as int].children, base + k);
            let outs = one_has_sid(s, s.nodes[output as int].children, base + k);
            let r = node_decoded(s, node, v, cf, d);
            &&& ins ==> (body_decoded(s, input, v, cf, d) matches Ok(t) ==> r == Ok::<
                Tree,
                Seq<char>,
            >(Tree::Object(seq![("input"@, t)])))
            &&& !ins && outs ==> (body_decoded(s, output, v, cf, d) matches Ok(t) ==> r == Ok::<
                Tree,
                Seq<char>,
            >(Tree::Object(seq![("output"@, t)])))
            &&& !ins && !outs ==> r is Err
        }),
        node_decoded(s, node, Item::Entries(Seq::empty()), cf, d) == Ok::<Tree, Seq<char>>(
            Tree::Object(Seq::empty()),
        ),
{
    reveal_strlit("leaf");
    reveal_strlit("leaf-list");
    reveal_strlit("container");
    reveal_strlit("input");
    reveal_strlit("output");
    reveal_strlit("list");
    reveal_strlit("rpc");
    reveal_strlit("action");
    let kw = s.nodes[node as int].kw;
    assert(kw.len() == 3 || kw.len() == 6);
    assert(kw[0] == 'r' || kw[0] == 'a');
    assert(kw != "leaf"@ && kw != "leaf-list"@ && kw != "container"@ && kw != "list"@);
    assert("input"@[0] == 'i' && "output"@[0] == 'o');
    assert(kw != "input"@ && kw != "output"@);
    lemma_has_sid(s, s.nodes[input as int].children, base + k, 0);
    lemma_has_sid(s, s.nodes[output as int].children, base + k, 0);
    assert(signed_low(k) == k);
    assert(signed_low(k + base) == k + base);
}

/// A value whose reference leads nowhere is sent and shown as it is.
pub proof fn law_plain_items_are_shown(n: int, t: Seq<char>, b: bool)
    requires
        i64::MIN <= n <= i64::MAX,
    ensures
        passed_on(Item::Text(t)) == Ok::<Tree, Seq<char>>(Tree::Text(t)),
        passed_on(Item::Bool(b)) == Ok::<Tree, Seq<char>>(Tree::Bool(b)),
        passed_on(Item::Integer(n)) == Ok::<Tree, Seq<char>>(Tree::Integer(n)),
        passed_on(Item::Null) == Ok::<Tree, Seq<char>>(Tree::Null),
{
    assert(signed_low(n) == n);
}

/// Numbers are kept as far as a signed number of 64 bits holds them, and go round
/// beyond.
pub proof fn law_numbers_go_round(n: int)
    ensures
        i64::MIN <= n <= i64::MAX ==> signed_low(n) == n,
        i64::MIN <= signed_low(n) <= i64::MAX,
        (signed_low(n) - n) % 0x1_0000_0000_0000_0000 == 0,
{
}

} // verus!
