//! What holds of texts: numbers in digits, pieces, words and ends.
use vstd::arithmetic::div_mod::lemma_div_denominator;
use vstd::arithmetic::power::{lemma_pow0, lemma_pow1, lemma_pow_adds, lemma_pow_positive, pow};
use vstd::prelude::*;

use crate::text::{
    decimal_text, digits_value, find_text, has_end, hex_text, index_from, is_space, joined,
    last_index, local_of, natural_text, number_in, run_end, segments, space_end, space_start,
    split_text, trimmed, two_digits, without_start, words, words_from,
};

verus! {

/// Whether a text holds no `c`.
pub open spec fn free_of(s: Seq<char>, c: char) -> bool {
    forall|i: int| 0 <= i < s.len() ==> #[trigger] s[i] != c
}

/// Whether a text is all white space.
pub open spec fn blank(s: Seq<char>) -> bool {
    forall|i: int| 0 <= i < s.len() ==> is_space(#[trigger] s[i])
}

/// Whether a text holds no white space.
pub open spec fn solid(s: Seq<char>) -> bool {
    forall|i: int| 0 <= i < s.len() ==> !is_space(#[trigger] s[i])
}

/// A natural number is written with as many digits as it needs, and each digit
/// counts tens by its distance from the end: the digit at place `i` of `k` is
/// `n / 10^(k - 1 - i)` modulo ten.
pub proof fn law_numbers_are_written_in_tens(n: nat, i: int)
    requires
        0 <= i < natural_text(n).len(),
    ensures
        natural_text(n)[i] as int == 48 + n as int / pow(10, (natural_text(n).len() - 1 - i) as nat)
            % 10,
        n > 0 ==> natural_text(n)[0] != '0',
        n == 0 ==> natural_text(n) == "0"@,
    decreases n,
{
    reveal_strlit("0");
    lemma_pow0(10);
    if n == 0 {
        assert(natural_text(n) =~= "0"@);
    }
    if n >= 10 {
        let k = natural_text(n).len();
        let m = n / 10;
        assert(natural_text(n) == natural_text(m).push((48 + n as int % 10) as char));
        lemma_natural_text_is_there(m);
        if i < k - 1 {
            law_numbers_are_written_in_tens(m, i);
            let e = (k - 2 - i) as nat;
            lemma_pow1(10);
            lemma_pow_adds(10, 1, e);
            lemma_pow_positive(10, e);
            lemma_div_denominator(n as int, 10, pow(10, e));
            assert(pow(10, (k - 1 - i) as nat) == 10 * pow(10, e));
        } else {
            law_numbers_are_written_in_tens(m, 0);
        }
    }
}

/// A number has a digit.
proof fn lemma_natural_text_is_there(n: nat)
    ensures
        natural_text(n).len() > 0,
    decreases n,
{
    if n >= 10 {
        lemma_natural_text_is_there(n / 10);
    }
}

/// A number below zero is a minus sign before the number without it.
pub proof fn law_minus_goes_first(n: int)
    ensures
        n >= 0 ==> decimal_text(n) == natural_text(n as nat),
        n < 0 ==> decimal_text(n) == "-"@ + natural_text((-n) as nat),
{
    reveal_strlit("-");
    assert("-"@ =~= seq!['-']);
}

/// One digit means its place among the ten, and digits before others count for
/// a power of ten: text is a number exactly where each character is a digit.
pub proof fn law_digits_mean_tens(a: Seq<char>, b: Seq<char>, d: int)
    requires
        0 <= d < 10,
    ensures
        digits_value(seq!["0123456789"@[d]]) == Some(d),
        digits_value(a + b) is Some <==> digits_value(a) is Some && digits_value(b) is Some,
        digits_value(a + b) is Some ==> digits_value(a + b) == Some(
            digits_value(a)->0 * pow(10, b.len()) + digits_value(b)->0,
        ),
    decreases b.len(),
{
    reveal_strlit("0123456789");
    let one = seq!["0123456789"@[d]];
    assert(one.drop_last() =~= Seq::empty());
    assert(digits_value(one.drop_last()) == Some(0int));
    lemma_pow0(10);
    if b.len() == 0 {
        assert(a + b =~= a);
    } else {
        law_digits_mean_tens(a, b.drop_last(), d);
        assert((a + b).drop_last() =~= a + b.drop_last());
        let e = (b.len() - 1) as nat;
        lemma_pow1(10);
        lemma_pow_adds(10, e, 1);
        if digits_value(a + b) is Some {
            let x = digits_value(a)->0;
            let p = pow(10, e);
            assert(x * (p * 10) == x * p * 10) by (nonlinear_arith);
        }
    }
}

/// Characters that are no digits make no number.
pub proof fn law_only_digits_make_numbers(s: Seq<char>)
    ensures
        digits_value(s) is Some <==> forall|i: int| 0 <= i < s.len() ==> '0' <= #[trigger] s[i] <= '9',
    decreases s.len(),
{
    if s.len() > 0 {
        law_only_digits_make_numbers(s.drop_last());
        let p = s.drop_last();
        assert forall|i: int| 0 <= i < p.len() implies p[i] == s[i] by {}
        if digits_value(s) is Some {
            assert forall|i: int| 0 <= i < s.len() implies '0' <= #[trigger] s[i] <= '9' by {
                if i < p.len() {
                    assert(s[i] == p[i]);
                }
            }
        }
        if forall|i: int| 0 <= i < s.len() ==> '0' <= #[trigger] s[i] <= '9' {
            assert('0' <= s[s.len() - 1] <= '9');
        }
    }
}

/// A text is read as the number that its digits mean: a plus sign changes
/// nothing, a minus sign turns it round where numbers below zero are taken, and
/// what is out of bounds is refused. A sign alone or nothing is no number.
pub proof fn law_numbers_are_read(s: Seq<char>, v: int, min: int, max: int)
    requires
        s.len() > 0,
        digits_value(s) == Some(v),
    ensures
        number_in(s, min, max) == (if min <= v <= max {
            Some(v)
        } else {
            None::<int>
        }),
        number_in("+"@ + s, min, max) == number_in(s, min, max),
        min < 0 ==> number_in("-"@ + s, min, max) == (if min <= -v <= max {
            Some(-v)
        } else {
            None::<int>
        }),
        min >= 0 ==> number_in("-"@ + s, min, max) is None,
        number_in(""@, min, max) is None,
        number_in("+"@, min, max) is None,
        number_in("-"@, min, max) is None,
{
    reveal_strlit("");
    reveal_strlit("+");
    reveal_strlit("-");
    law_only_digits_make_numbers(s);
    law_only_digits_make_numbers("-"@);
    law_only_digits_make_numbers("-"@ + s);
    assert('0' <= s[0] <= '9');
    assert(("+"@ + s).subrange(1, 1 + s.len() as int) =~= s);
    assert(("-"@ + s).subrange(1, 1 + s.len() as int) =~= s);
    assert(("-"@)[0] == '-');
    assert(("-"@ + s)[0] == '-');
}

/// The first place in two texts, one behind the other.
proof fn lemma_index_in_both(a: Seq<char>, c: char, b: Seq<char>, from: int)
    requires
        free_of(a, c),
        0 <= from <= a.len(),
    ensures
        index_from(a + seq![c] + b, c, from) == a.len(),
        index_from(a, c, from) == a.len(),
    decreases a.len() - from,
{
    let s = a + seq![c] + b;
    if from < a.len() {
        assert(s[from] == a[from]);
        lemma_index_in_both(a, c, b, from + 1);
    } else {
        assert(s[from] == c);
    }
}

/// The piece up to the first `c` is the first of the pieces, the others are
/// those of the rest, and a text without a `c` is one piece.
pub proof fn law_pieces_stand_between(a: Seq<char>, c: char, b: Seq<char>)
    requires
        free_of(a, c),
    ensures
        split_text(a, c) == seq![a],
        split_text(a + seq![c] + b, c) == seq![a] + split_text(b, c),
{
    lemma_index_in_both(a, c, b, 0);
    let s = a + seq![c] + b;
    assert(s.subrange(0, a.len() as int) =~= a);
    assert(s.subrange(a.len() + 1int, s.len() as int) =~= b);
}

/// The pieces with a `c` between them are the text again, and none holds one.
pub proof fn law_pieces_make_the_text(s: Seq<char>, c: char)
    ensures
        joined(split_text(s, c), seq![c]) == s,
        split_text(s, c).len() > 0,
        forall|i: int| 0 <= i < split_text(s, c).len() ==> free_of(#[trigger] split_text(s, c)[i], c),
    decreases s.len(),
{
    crate::text::lemma_index_from(s, c, 0);
    let i = index_from(s, c, 0);
    if i < s.len() {
        let a = s.subrange(0, i);
        let b = s.subrange(i + 1, s.len() as int);
        law_pieces_make_the_text(b, c);
        assert(s =~= a + seq![c] + b);
        law_joined_texts(seq![a], split_text(b, c), seq![c]);
        assert(split_text(s, c) == seq![a] + split_text(b, c));
    } else {
        assert(joined(seq![s], seq![c]) == s);
    }
}

/// A text alone is itself, and the separator stands once between the texts of
/// two lists that follow each other.
pub proof fn law_joined_texts(a: Seq<Seq<char>>, b: Seq<Seq<char>>, sep: Seq<char>)
    ensures
        a.len() == 1 ==> joined(a, sep) == a[0],
        a.len() > 0 && b.len() > 0 ==> joined(a + b, sep) == joined(a, sep) + sep + joined(b, sep),
        a.len() == 0 ==> joined(a + b, sep) == joined(b, sep),
        b.len() == 0 ==> joined(a + b, sep) == joined(a, sep),
    decreases b.len(),
{
    if b.len() == 0 {
        assert(a + b =~= a);
    } else if a.len() == 0 {
        assert(a + b =~= b);
    } else {
        assert((a + b).drop_last() =~= a + b.drop_last());
        assert((a + b).last() == b.last());
        law_joined_texts(a, b.drop_last(), sep);
        if b.len() == 1 {
            assert(a + b.drop_last() =~= a);
            assert(joined(a + b, sep) =~= joined(a, sep) + sep + b[0]);
        } else {
            assert(joined(b, sep) == joined(b.drop_last(), sep) + sep + b.last());
            assert(joined(a + b, sep) =~= joined(a, sep) + sep + joined(b, sep));
        }
    }
}

/// The segments of a path are its pieces that hold something: those before a
/// delimiter and those behind it, and nothing for delimiters that follow each
/// other or stand at an end.
pub proof fn law_segments_hold_something(a: Seq<char>, c: char, b: Seq<char>)
    requires
        free_of(a, c),
    ensures
        a.len() == 0 ==> segments(a, c).len() == 0,
        a.len() > 0 ==> segments(a, c) == seq![a],
        a.len() == 0 ==> segments(a + seq![c] + b, c) == segments(b, c),
        a.len() > 0 ==> segments(a + seq![c] + b, c) == seq![a] + segments(b, c),
{
    let keep = |seg: Seq<char>| seg.len() > 0;
    law_pieces_stand_between(a, c, b);
    lemma_filter_one(a, keep);
    lemma_filter_more(seq![a], split_text(b, c), keep);
    if a.len() == 0 {
        assert(segments(a + seq![c] + b, c) =~= segments(b, c));
    }
}

/// The segments on both sides of a delimiter follow each other, whatever stands
/// there.
pub proof fn law_segments_follow(a: Seq<char>, c: char, b: Seq<char>)
    ensures
        segments(a + seq![c] + b, c) == segments(a, c) + segments(b, c),
{
    let keep = |seg: Seq<char>| seg.len() > 0;
    lemma_pieces_follow(a, c, b);
    lemma_filter_more(split_text(a, c), split_text(b, c), keep);
}

/// The pieces on both sides of a `c` follow each other.
proof fn lemma_pieces_follow(a: Seq<char>, c: char, b: Seq<char>)
    ensures
        split_text(a + seq![c] + b, c) == split_text(a, c) + split_text(b, c),
    decreases a.len(),
{
    crate::text::lemma_index_from(a, c, 0);
    let i = index_from(a, c, 0);
    if i < a.len() {
        let x = a.subrange(0, i);
        let y = a.subrange(i + 1, a.len() as int);
        assert(a =~= x + seq![c] + y);
        assert(a + seq![c] + b =~= x + seq![c] + (y + seq![c] + b));
        law_pieces_stand_between(x, c, y);
        law_pieces_stand_between(x, c, y + seq![c] + b);
        lemma_pieces_follow(y, c, b);
        assert(split_text(a + seq![c] + b, c) =~= split_text(a, c) + split_text(b, c));
    } else {
        law_pieces_stand_between(a, c, b);
    }
}

/// What a filter leaves of one value.
proof fn lemma_filter_one(x: Seq<char>, keep: spec_fn(Seq<char>) -> bool)
    ensures
        keep(x) ==> seq![x].filter(keep) == seq![x],
        !keep(x) ==> seq![x].filter(keep) == Seq::<Seq<char>>::empty(),
{
    reveal(Seq::filter);
    let s = seq![x];
    assert(s.drop_last() =~= Seq::empty());
    assert(s.drop_last().filter(keep) =~= Seq::empty());
    if keep(x) {
        assert(s.filter(keep) =~= seq![x]);
    }
}

/// What a filter leaves of two lists that follow each other.
proof fn lemma_filter_more(
    a: Seq<Seq<char>>,
    b: Seq<Seq<char>>,
    keep: spec_fn(Seq<char>) -> bool,
)
    ensures
        (a + b).filter(keep) == a.filter(keep) + b.filter(keep),
{
    Seq::filter_distributes_over_add(a, b, keep);
}

/// Behind the last colon of a name stands its local part; without a colon the
/// name is local.
pub proof fn law_prefixes_come_off(prefix: Seq<char>, name: Seq<char>)
    requires
        free_of(name, ':'),
    ensures
        local_of(name) == name,
        local_of(prefix + ":"@ + name) == name,
{
    reveal_strlit(":");
    lemma_last_index(name, name, 0);
    assert(name.subrange(0, name.len() as int) =~= name);
    let s = prefix + ":"@ + name;
    lemma_last_index(s, name, prefix.len() + 1int);
    assert(s[prefix.len() as int] == ':');
    assert(last_index(s, ':', prefix.len() + 1int) == prefix.len());
    assert(s.subrange(prefix.len() + 1int, s.len() as int) =~= name);
}

/// The last colon is not in what holds none.
proof fn lemma_last_index(s: Seq<char>, end: Seq<char>, from: int)
    requires
        free_of(end, ':'),
        0 <= from,
        s.len() == from + end.len(),
        s.subrange(from, s.len() as int) =~= end,
    ensures
        last_index(s, ':', s.len() as int) == last_index(s, ':', from),
{
    lemma_last_index_to(s, end, from, s.len() as int);
}

/// The last colon before `n` is not in what holds none.
proof fn lemma_last_index_to(s: Seq<char>, end: Seq<char>, from: int, n: int)
    requires
        free_of(end, ':'),
        0 <= from <= n <= s.len(),
        s.len() == from + end.len(),
        s.subrange(from, s.len() as int) =~= end,
    ensures
        last_index(s, ':', n) == last_index(s, ':', from),
    decreases n,
{
    if n > from {
        assert(end[n - 1 - from] == s[n - 1]);
        lemma_last_index_to(s, end, from, n - 1);
    }
}

/// White space round a text comes off, and nothing else.
pub proof fn law_ends_are_trimmed(before: Seq<char>, s: Seq<char>, behind: Seq<char>)
    requires
        blank(before),
        blank(behind),
        s.len() > 0 ==> !is_space(s[0]) && !is_space(s.last()),
        s.len() == 0 ==> behind.len() == 0,
    ensures
        trimmed(before + s + behind) == s,
{
    let t = before + s + behind;
    lemma_space_end(t, 0, before.len() as int);
    lemma_space_start(t, before.len() as int, (before.len() + s.len()) as int, t.len() as int);
    assert(t.subrange(before.len() as int, (before.len() + s.len()) as int) =~= s);
}

/// White space up to a place where there is none.
proof fn lemma_space_end(s: Seq<char>, from: int, to: int)
    requires
        0 <= from <= to <= s.len(),
        forall|i: int| from <= i < to ==> is_space(#[trigger] s[i]),
        to < s.len() ==> !is_space(s[to]),
    ensures
        space_end(s, from) == to,
    decreases to - from,
{
    if from < to {
        lemma_space_end(s, from + 1, to);
    }
}

/// White space from a place before which there is none.
proof fn lemma_space_start(s: Seq<char>, from: int, to: int, end: int)
    requires
        0 <= from <= to <= end <= s.len(),
        forall|i: int| to <= i < end ==> is_space(#[trigger] s[i]),
        to > from ==> !is_space(s[to - 1]),
    ensures
        space_start(s, from, end) == to,
    decreases end - to,
{
    if to < end {
        lemma_space_start(s, from, to, end - 1);
    }
}

/// Blanks, tabs and line breaks are white space; letters, digits and the signs
/// of names, numbers and paths are not.
pub proof fn law_white_space(c: char)
    ensures
        c == ' ' || c == '\t' || c == '\n' || c == '\r' ==> is_space(c),
        '!' <= c <= '~' ==> !is_space(c),
{
}

/// A text without white space is one word, and words behind white space follow
/// those before it.
pub proof fn law_words_stand_between(a: Seq<char>, gap: Seq<char>, b: Seq<char>)
    requires
        solid(a),
        blank(gap),
        gap.len() > 0,
    ensures
        a.len() > 0 ==> words(a) == seq![a] && words(a + gap + b) == seq![a] + words(b),
        a.len() == 0 ==> words(a).len() == 0 && words(a + gap + b) == words(b),
        words(gap).len() == 0,
{
    let s = a + gap + b;
    let g = (a.len() + gap.len()) as int;
    assert(s.subrange(g, s.len() as int) =~= b);
    lemma_words_behind(s, b, g, g);
    lemma_words_over(s, a.len() as int, g);
    lemma_words_over(gap, 0, gap.len() as int);
    if a.len() > 0 {
        assert(s[0] == a[0] && a[0] == s[0]);
        assert(!is_space(a[0]));
        lemma_run_end(a, 0, a.len() as int);
        assert forall|i: int| 0 <= i < a.len() implies !is_space(#[trigger] s[i]) by {
            assert(s[i] == a[i]);
        }
        assert(s[a.len() as int] == gap[0]);
        lemma_run_end(s, 0, a.len() as int);
        assert(a.subrange(0, a.len() as int) =~= a);
        assert(s.subrange(0, a.len() as int) =~= a);
        assert(words_from(a, a.len() as int) =~= Seq::empty());
        assert(words(a) =~= seq![a]);
        assert(words(s) == seq![a] + words_from(s, a.len() as int));
    }
}

/// A run up to white space or the end.
proof fn lemma_run_end(s: Seq<char>, from: int, to: int)
    requires
        0 <= from <= to <= s.len(),
        forall|i: int| from <= i < to ==> !is_space(#[trigger] s[i]),
        to < s.len() ==> is_space(s[to]),
    ensures
        run_end(s, from) == to,
    decreases to - from,
{
    if from < to {
        lemma_run_end(s, from + 1, to);
    }
}

/// White space before words does not matter.
proof fn lemma_words_over(s: Seq<char>, from: int, to: int)
    requires
        0 <= from <= to <= s.len(),
        forall|i: int| from <= i < to ==> is_space(#[trigger] s[i]),
    ensures
        words_from(s, from) == words_from(s, to),
    decreases to - from,
{
    if from < to {
        lemma_words_over(s, from + 1, to);
        assert(space_end(s, from) == space_end(s, from + 1));
        lemma_space_end_is_behind(s, from + 1);
    }
}

/// White space ends no earlier than it starts.
proof fn lemma_space_end_is_behind(s: Seq<char>, from: int)
    requires
        0 <= from <= s.len(),
    ensures
        from <= space_end(s, from) <= s.len(),
    decreases s.len() - from,
{
    if from < s.len() && is_space(s[from]) {
        lemma_space_end_is_behind(s, from + 1);
    }
}

/// A run ends no earlier than it starts.
proof fn lemma_run_end_is_behind(s: Seq<char>, from: int)
    requires
        0 <= from <= s.len(),
    ensures
        from <= run_end(s, from) <= s.len(),
    decreases s.len() - from,
{
    if from < s.len() && !is_space(s[from]) {
        lemma_run_end_is_behind(s, from + 1);
    }
}

/// White space and runs lie where they lie in the rest of a text.
proof fn lemma_ends_behind(s: Seq<char>, b: Seq<char>, g: int, from: int)
    requires
        0 <= g <= from <= s.len(),
        s.subrange(g, s.len() as int) == b,
    ensures
        space_end(s, from) == space_end(b, from - g) + g,
        run_end(s, from) == run_end(b, from - g) + g,
    decreases s.len() - from,
{
    if from < s.len() {
        assert(s[from] == b[from - g]);
        lemma_ends_behind(s, b, g, from + 1);
    }
}

/// The words of the rest of a text.
proof fn lemma_words_behind(s: Seq<char>, b: Seq<char>, g: int, from: int)
    requires
        0 <= g <= from <= s.len(),
        s.subrange(g, s.len() as int) == b,
    ensures
        words_from(s, from) == words_from(b, from - g),
    decreases s.len() - from,
{
    lemma_ends_behind(s, b, g, from);
    lemma_space_end_is_behind(s, from);
    let start = space_end(s, from);
    lemma_ends_behind(s, b, g, start);
    lemma_run_end_is_behind(s, start);
    let end = run_end(s, start);
    if start < end {
        lemma_words_behind(s, b, g, end);
        assert(s.subrange(start, end) =~= b.subrange(start - g, end - g));
    }
}

/// The place that is found is the first that holds the text, and where none is
/// found none holds it.
pub proof fn law_the_first_is_found(parts: Seq<Seq<char>>, s: Seq<char>, from: int)
    requires
        0 <= from <= parts.len(),
    ensures
        find_text(parts, s, from) matches Some(i) ==> from <= i < parts.len() && parts[i] == s && (
        forall|j: int| from <= j < i ==> #[trigger] parts[j] != s),
        find_text(parts, s, from) is None ==> forall|j: int|
            from <= j < parts.len() ==> #[trigger] parts[j] != s,
    decreases parts.len() - from,
{
    if from < parts.len() && parts[from] != s {
        law_the_first_is_found(parts, s, from + 1);
    }
}

/// A text ends with an end exactly where something stands before it, and what
/// is left without a beginning is what stood behind it.
pub proof fn law_ends_and_beginnings(a: Seq<char>, b: Seq<char>, s: Seq<char>, t: Seq<char>)
    ensures
        has_end(a + b, b),
        has_end(s, t) ==> exists|x: Seq<char>| s == x + t,
        without_start(a + b, a) == Some(b),
        without_start(s, t) matches Some(x) ==> s == t + x,
{
    assert((a + b).subrange(a.len() as int, (a + b).len() as int) =~= b);
    assert((a + b).subrange(0, a.len() as int) =~= a);
    if has_end(s, t) {
        assert(s =~= s.subrange(0, s.len() - t.len()) + t);
    }
    if let Some(x) = without_start(s, t) {
        assert(s =~= t + x);
    }
}

/// Each byte is two hex digits, the high one first.
pub proof fn law_bytes_in_hex(bytes: Seq<u8>, n: int, i: int)
    requires
        0 <= i < n <= bytes.len(),
    ensures
        hex_text(bytes, n).len() == 2 * n,
        hex_text(bytes, n)[2 * i] == "0123456789abcdef"@[bytes[i] as int / 16],
        hex_text(bytes, n)[2 * i + 1] == "0123456789abcdef"@[bytes[i] as int % 16],
    decreases n,
{
    reveal_strlit("0123456789abcdef");
    lemma_hex_length(bytes, n - 1);
    if i < n - 1 {
        law_bytes_in_hex(bytes, n - 1, i);
    }
}

/// The length of a hex text.
proof fn lemma_hex_length(bytes: Seq<u8>, n: int)
    requires
        0 <= n <= bytes.len(),
    ensures
        hex_text(bytes, n).len() == 2 * n,
    decreases n,
{
    if n > 0 {
        lemma_hex_length(bytes, n - 1);
    }
}

/// A number below a hundred is its tens and its ones.
pub proof fn law_two_digits(n: int)
    requires
        0 <= n < 100,
    ensures
        two_digits(n).len() == 2,
        two_digits(n)[0] as int == 48 + n / 10,
        two_digits(n)[1] as int == 48 + n % 10,
{
    reveal_strlit("0");
    assert(natural_text((n % 10) as nat).len() == 1);
    if n >= 10 {
        assert(natural_text((n / 10) as nat).len() == 1);
        assert(natural_text(n as nat) == natural_text((n / 10) as nat).push(
            (48 + n % 10) as char,
        ));
    }
}

} // verus!
