//! What restrictions of values and lengths allow.
use vstd::prelude::*;

use crate::text::{number_in, split_text, trimmed};
use crate::text_laws::{free_of, law_pieces_stand_between};
use crate::yang::meaning::{bound_in, dots_from, range_part, range_parts, ranges_in, restricted};
use crate::yang::parser::{arg_of, sub_of, StmtView};
use crate::yang::schema::{Builtin, TypeView};

verus! {

/// Whether a text stands for a bound: the least or the greatest that the base
/// allows, or a number. White space round it does not count.
pub open spec fn stands_for(s: Seq<char>, base: Seq<(i128, i128)>, v: i128) -> bool {
    let t = trimmed(s);
    ||| t == "min"@ && base.len() > 0 && v == base[0].0
    ||| t == "max"@ && base.len() > 0 && v == base[base.len() - 1].1
    ||| t != "min"@ && t != "max"@ && number_in(t, i128::MIN as int, i128::MAX as int) == Some(
        v as int,
    )
}

/// A bound is read as what it stands for.
proof fn lemma_bound(s: Seq<char>, base: Seq<(i128, i128)>, v: i128)
    requires
        stands_for(s, base, v),
    ensures
        bound_in(trimmed(s), base) == Some(v),
{
    reveal_strlit("min");
    reveal_strlit("max");
    assert("min"@[1] == 'i' && "max"@[1] == 'a');
}

/// No two dots before those between the bounds.
proof fn lemma_dots(x: Seq<char>, y: Seq<char>, from: int)
    requires
        free_of(x, '.'),
        0 <= from <= x.len(),
    ensures
        dots_from(x + ".."@ + y, from) == x.len(),
        dots_from(x, from) == x.len(),
    decreases x.len() - from,
{
    reveal_strlit("..");
    let s = x + ".."@ + y;
    assert(s[x.len() as int] == '.' && s[x.len() + 1int] == '.');
    if from < x.len() {
        assert(s[from] == x[from]);
        lemma_dots(x, y, from + 1);
    }
}

/// `x..y` allows what lies between two bounds, both included, and one value
/// allows itself alone.
proof fn lemma_part(x: Seq<char>, y: Seq<char>, base: Seq<(i128, i128)>, low: i128, high: i128)
    requires
        free_of(x, '.'),
        stands_for(x, base, low),
        stands_for(y, base, high),
    ensures
        range_part(x + ".."@ + y, base) == Some((low, high)),
        range_part(x, base) == Some((low, low)),
{
    reveal_strlit("..");
    let s = x + ".."@ + y;
    lemma_dots(x, y, 0);
    lemma_bound(x, base, low);
    lemma_bound(y, base, high);
    assert(s.subrange(0, x.len() as int) =~= x);
    assert(s.subrange(x.len() + 2int, s.len() as int) =~= y);
}

/// The parts of a list behind another one.
proof fn lemma_parts(one: Seq<char>, rest: Seq<Seq<char>>, base: Seq<(i128, i128)>, n: int)
    requires
        0 <= n <= rest.len(),
        range_part(one, base) is Some,
    ensures
        range_parts(rest, base, n) matches Some(r) ==> range_parts(
            seq![one] + rest,
            base,
            n + 1,
        ) == Some(seq![range_part(one, base)->0] + r),
        range_parts(rest, base, n) is None ==> range_parts(seq![one] + rest, base, n + 1) is None,
    decreases n,
{
    let all = seq![one] + rest;
    let p = range_part(one, base)->0;
    if n == 0 {
        assert(range_parts(all, base, 0) == Some(Seq::<(i128, i128)>::empty()));
        assert(range_parts(all, base, 1) == Some(Seq::<(i128, i128)>::empty().push(p)));
        assert(Seq::<(i128, i128)>::empty().push(p) =~= seq![p] + Seq::<(i128, i128)>::empty());
    } else {
        lemma_parts(one, rest, base, n - 1);
        assert(all[n] == rest[n - 1]);
        if let Some(r) = range_parts(rest, base, n) {
            let before = range_parts(rest, base, n - 1)->0;
            assert((seq![p] + before).push(r.last()) =~= seq![p] + r);
        }
    }
}

/// A restriction `x..y` is the range between its bounds, and one value is the
/// range of itself alone. Ranges with a bar between them follow each other: what
/// stands behind the bar is read like a restriction for itself.
pub proof fn law_ranges_are_between_their_bounds(
    x: Seq<char>,
    y: Seq<char>,
    more: Seq<char>,
    base: Seq<(i128, i128)>,
    low: i128,
    high: i128,
)
    requires
        free_of(x, '.'),
        free_of(x, '|'),
        free_of(y, '|'),
        stands_for(x, base, low),
        stands_for(y, base, high),
    ensures
        ranges_in(x + ".."@ + y, base) == Ok::<Seq<(i128, i128)>, Seq<char>>(seq![(low, high)]),
        ranges_in(x, base) == Ok::<Seq<(i128, i128)>, Seq<char>>(seq![(low, low)]),
        ranges_in(more, base) matches Ok(r) ==> ranges_in(x + ".."@ + y + "|"@ + more, base) == Ok::<
            Seq<(i128, i128)>,
            Seq<char>,
        >(seq![(low, high)] + r) && ranges_in(x + "|"@ + more, base) == Ok::<
            Seq<(i128, i128)>,
            Seq<char>,
        >(seq![(low, low)] + r),
        ranges_in(more, base) is Err ==> ranges_in(x + ".."@ + y + "|"@ + more, base) is Err
            && ranges_in(x + "|"@ + more, base) is Err,
{
    reveal_strlit("..");
    reveal_strlit("|");
    assert("|"@ =~= seq!['|']);
    let s = x + ".."@ + y;
    lemma_part(x, y, base, low, high);
    assert(free_of(s, '|')) by {
        assert forall|i: int| 0 <= i < s.len() implies #[trigger] s[i] != '|' by {
            if i < x.len() {
                assert(s[i] == x[i]);
            } else if i >= x.len() + 2 {
                assert(s[i] == y[i - x.len() - 2]);
            }
        }
    }
    law_pieces_stand_between(s, '|', more);
    law_pieces_stand_between(x, '|', more);
    lemma_one_part(s, base, (low, high));
    lemma_one_part(x, base, (low, low));
    let rest = split_text(more, '|');
    lemma_parts(s, rest, base, rest.len() as int);
    lemma_parts(x, rest, base, rest.len() as int);
}

/// One part alone.
proof fn lemma_one_part(s: Seq<char>, base: Seq<(i128, i128)>, p: (i128, i128))
    requires
        range_part(s, base) == Some(p),
    ensures
        range_parts(seq![s], base, 1) == Some(seq![p]),
{
    let one = seq![s];
    assert(one[0] == s);
    assert(range_parts(one, base, 0) == Some(Seq::<(i128, i128)>::empty()));
    assert(Seq::<(i128, i128)>::empty().push(p) =~= seq![p]);
}

/// A bound that is no number, and not the least or greatest, is an error.
pub proof fn law_other_bounds_are_refused(x: Seq<char>, base: Seq<(i128, i128)>)
    requires
        free_of(x, '.'),
        free_of(x, '|'),
        trimmed(x) != "min"@,
        trimmed(x) != "max"@,
        number_in(trimmed(x), i128::MIN as int, i128::MAX as int) is None,
    ensures
        ranges_in(x, base) is Err,
{
    lemma_dots(x, Seq::empty(), 0);
    law_pieces_stand_between(x, '|', Seq::empty());
    let one = seq![x];
    assert(one[0] == x);
    assert(range_part(x, base) is None);
    assert(range_parts(one, base, 1) is None);
}

/// Numbers are restricted by `range` and texts and binary data by `length`: the
/// restriction takes the place of what the type allowed before, and without one
/// that stays.
pub proof fn law_restrictions_replace_ranges(ty: TypeView, t: StmtView)
    ensures
        ({
            let number = ty.builtin == Builtin::Int8 || ty.builtin == Builtin::Int16 || ty.builtin
                == Builtin::Int32 || ty.builtin == Builtin::Int64 || ty.builtin == Builtin::Uint8
                || ty.builtin == Builtin::Uint16 || ty.builtin == Builtin::Uint32 || ty.builtin
                == Builtin::Uint64;
            let long = ty.builtin == Builtin::String || ty.builtin == Builtin::Binary;
            let r = if number {
                sub_of(t, "range"@)
            } else if long {
                sub_of(t, "length"@)
            } else {
                None
            };
            match r {
                Some(s) => match ranges_in(arg_of(s), ty.ranges) {
                    Ok(ranges) => restricted(ty, t) matches Ok(u) && u.ranges == ranges && u.builtin
                        == ty.builtin,
                    Err(_) => restricted(ty, t) is Err,
                },
                None => restricted(ty, t) matches Ok(u) && u.ranges == ty.ranges && u.builtin
                    == ty.builtin,
            }
        }),
{
}

} // verus!
