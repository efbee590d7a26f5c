//! What holds of the lists in a JSON Schema, and of line endings.
use vstd::prelude::*;

use crate::text::find_text;
use crate::yang::json_schema::{distinct, in_order, ordered_from, with_text};
use crate::yang::parser::normalized;

verus! {

/// Of two texts one comes before the other, or they are the same.
pub proof fn law_texts_are_ordered(a: Seq<char>, b: Seq<char>, i: int)
    requires
        0 <= i,
    ensures
        ordered_from(a, b, i) || ordered_from(b, a, i),
    decreases a.len() - i,
{
    if i < a.len() && i < b.len() && a[i] == b[i] {
        law_texts_are_ordered(a, b, i + 1);
    }
}

/// What comes before a text comes before all that comes after it.
pub proof fn law_order_goes_on(a: Seq<char>, b: Seq<char>, c: Seq<char>, i: int)
    requires
        0 <= i,
        ordered_from(a, b, i),
        ordered_from(b, c, i),
    ensures
        ordered_from(a, c, i),
    decreases a.len() - i,
{
    if i < a.len() && i < b.len() && i < c.len() && a[i] == b[i] && b[i] == c[i] {
        law_order_goes_on(a, b, c, i + 1);
    }
}

/// Whether some texts are in order.
pub open spec fn ascending(s: Seq<Seq<char>>) -> bool {
    forall|i: int, j: int|
        0 <= i < j < s.len() ==> ordered_from(#[trigger] s[i], #[trigger] s[j], 0)
}

/// One more text keeps the order, and nothing else comes or goes.
proof fn lemma_with_text(s: Seq<Seq<char>>, t: Seq<char>)
    requires
        ascending(s),
    ensures
        ascending(with_text(s, t)),
        with_text(s, t).to_multiset() == s.to_multiset().insert(t),
        with_text(s, t).len() == s.len() + 1,
        forall|x: Seq<char>|
            ordered_from(t, x, 0) && (forall|i: int|
                0 <= i < s.len() ==> ordered_from(#[trigger] s[i], x, 0)) ==> forall|i: int|
                0 <= i <= s.len() ==> ordered_from(#[trigger] with_text(s, t)[i], x, 0),
    decreases s.len(),
{
    broadcast use vstd::seq_lib::group_to_multiset_ensures;

    let r = with_text(s, t);
    if s.len() == 0 || ordered_from(s.last(), t, 0) {
        assert forall|i: int, j: int| 0 <= i < j < r.len() implies ordered_from(
            #[trigger] r[i],
            #[trigger] r[j],
            0,
        ) by {
            if j < s.len() {
                assert(r[i] == s[i] && r[j] == s[j]);
            } else if i < s.len() - 1 {
                assert(ordered_from(s[i], s[s.len() - 1], 0));
                law_order_goes_on(s[i], s.last(), t, 0);
            }
        }
        assert forall|x: Seq<char>|
            ordered_from(t, x, 0) && (forall|i: int|
                0 <= i < s.len() ==> ordered_from(#[trigger] s[i], x, 0)) implies forall|i: int|
            0 <= i <= s.len() ==> ordered_from(#[trigger] r[i], x, 0) by {
            assert forall|i: int| 0 <= i <= s.len() implies ordered_from(#[trigger] r[i], x, 0) by {
                if i < s.len() {
                    assert(r[i] == s[i]);
                }
            }
        }
    } else {
        let short = s.drop_last();
        let last = s.last();
        assert forall|i: int, j: int| 0 <= i < j < short.len() implies ordered_from(
            #[trigger] short[i],
            #[trigger] short[j],
            0,
        ) by {
            assert(short[i] == s[i] && short[j] == s[j]);
        }
        lemma_with_text(short, t);
        let before = with_text(short, t);
        law_texts_are_ordered(last, t, 0);
        assert forall|i: int| 0 <= i < short.len() implies ordered_from(
            #[trigger] short[i],
            last,
            0,
        ) by {
            assert(short[i] == s[i]);
            assert(ordered_from(s[i], s[s.len() - 1], 0));
        }
        assert(forall|i: int| 0 <= i <= short.len() ==> ordered_from(#[trigger] before[i], last, 0));
        assert forall|i: int, j: int| 0 <= i < j < r.len() implies ordered_from(
            #[trigger] r[i],
            #[trigger] r[j],
            0,
        ) by {
            assert(r[i] == before[i]);
            if j < before.len() {
                assert(r[j] == before[j]);
            }
        }
        assert(short.push(last) =~= s);
        assert(r.to_multiset() =~= s.to_multiset().insert(t));
        assert forall|x: Seq<char>|
            ordered_from(t, x, 0) && (forall|i: int|
                0 <= i < s.len() ==> ordered_from(#[trigger] s[i], x, 0)) implies forall|i: int|
            0 <= i <= s.len() ==> ordered_from(#[trigger] r[i], x, 0) by {
            assert forall|i: int| 0 <= i < short.len() implies ordered_from(
                #[trigger] short[i],
                x,
                0,
            ) by {
                assert(short[i] == s[i]);
            }
            assert forall|i: int| 0 <= i <= s.len() implies ordered_from(#[trigger] r[i], x, 0) by {
                if i < before.len() {
                    assert(r[i] == before[i]);
                } else {
                    assert(ordered_from(s[s.len() - 1], x, 0));
                }
            }
        }
    }
}

/// Putting texts in order puts them in order, and nothing comes or goes.
pub proof fn law_in_order(s: Seq<Seq<char>>)
    ensures
        ascending(in_order(s)),
        in_order(s).to_multiset() == s.to_multiset(),
    decreases s.len(),
{
    broadcast use vstd::seq_lib::group_to_multiset_ensures;

    if s.len() > 0 {
        law_in_order(s.drop_last());
        lemma_with_text(in_order(s.drop_last()), s.last());
        assert(s.drop_last().push(s.last()) =~= s);
    }
}

proof fn lemma_find_text(parts: Seq<Seq<char>>, s: Seq<char>, from: int)
    requires
        0 <= from,
    ensures
        find_text(parts, s, from) matches Some(i) ==> from <= i < parts.len() && parts[i] == s,
        find_text(parts, s, from) is None ==> forall|i: int|
            from <= i < parts.len() ==> #[trigger] parts[i] != s,
    decreases parts.len() - from,
{
    if from < parts.len() {
        lemma_find_text(parts, s, from + 1);
    }
}

/// Texts that are listed only once are all there, and none is there twice.
pub proof fn law_distinct(s: Seq<Seq<char>>, n: int)
    requires
        0 <= n <= s.len(),
    ensures
        forall|i: int, j: int|
            0 <= i < j < distinct(s, n).len() ==> #[trigger] distinct(s, n)[i]
                != #[trigger] distinct(s, n)[j],
        forall|i: int| 0 <= i < n ==> distinct(s, n).contains(#[trigger] s[i]),
        forall|t: Seq<char>| #[trigger]
            distinct(s, n).contains(t) ==> s.subrange(0, n).contains(t),
    decreases n,
{
    if n > 0 {
        law_distinct(s, n - 1);
        let before = distinct(s, n - 1);
        let all = distinct(s, n);
        lemma_find_text(before, s[n - 1], 0);
        assert forall|i: int| 0 <= i < n implies all.contains(#[trigger] s[i]) by {
            if i < n - 1 {
                assert(before.contains(s[i]));
                let k = choose|k: int| 0 <= k < before.len() && before[k] == s[i];
                assert(all[k] == s[i]);
            } else if find_text(before, s[n - 1], 0) is Some {
                assert(all[find_text(before, s[n - 1], 0)->0] == s[i]);
            } else {
                assert(all[before.len() as int] == s[i]);
            }
        }
        assert forall|t: Seq<char>| #[trigger] all.contains(t) implies s.subrange(0, n).contains(
            t,
        ) by {
            let k = choose|k: int| 0 <= k < all.len() && all[k] == t;
            if k < before.len() {
                assert(before[k] == t);
                assert(before.contains(t));
                assert(s.subrange(0, n - 1).contains(t));
                let short = s.subrange(0, n - 1);
                let i = choose|i: int| 0 <= i < short.len() && short[i] == t;
                assert(s.subrange(0, n)[i] == t);
            } else {
                assert(s.subrange(0, n)[n - 1] == t);
            }
        }
    }
}

/// A text with every line ending made a line feed holds no carriage return,
/// and making them so again changes nothing.
pub proof fn law_line_endings(s: Seq<char>)
    ensures
        !normalized(s).contains('\r'),
        normalized(normalized(s)) == normalized(s),
    decreases s.len(),
{
    if s.len() > 0 {
        let n = if s[0] == '\r' && s.len() > 1 && s[1] == '\n' {
            2int
        } else {
            1int
        };
        let rest = s.subrange(n, s.len() as int);
        law_line_endings(rest);
        let r = normalized(s);
        assert(r.subrange(1, r.len() as int) =~= normalized(rest));
        assert forall|i: int| 0 <= i < r.len() implies r[i] != '\r' by {
            if i > 0 {
                assert(r[i] == normalized(rest)[i - 1]);
                assert(normalized(rest).contains(normalized(rest)[i - 1]));
            }
        }
        assert(normalized(r) =~= r);
    }
}

} // verus!
