//! Building blocks on text: comparing, joining, numbers and UTF-8.
use vstd::prelude::*;
use vstd::utf8::{decode_utf8, encode_utf8, encode_utf8_decode_utf8, valid_utf8};

verus! {

/// `String::push` appends one character.
#[verifier::external_body]
pub(crate) fn push_char(s: &mut String, c: char)
    ensures
        final(s)@ == old(s)@.push(c),
{
    s.push(c)
}

/// `String::from_utf8` succeeds exactly on valid UTF-8, and then holds the
/// characters that the bytes encode.
#[verifier::external_body]
fn std_from_utf8(bytes: Vec<u8>) -> (r: Option<String>)
    ensures
        match r {
            Some(s) => valid_utf8(bytes@) && s@ == decode_utf8(bytes@),
            None => !valid_utf8(bytes@),
        },
{
    String::from_utf8(bytes).ok()
}

/// The text that `bytes` encode in UTF-8, if they do.
pub fn text_of_utf8(bytes: Vec<u8>) -> (r: Option<String>)
    ensures
        match r {
            Some(s) => valid_utf8(bytes@) && s@ == decode_utf8(bytes@),
            None => !valid_utf8(bytes@),
        },
{
    std_from_utf8(bytes)
}

/// The text that quotes `s` the way a Rust string literal would.
pub uninterp spec fn quoted_text(s: Seq<char>) -> Seq<char>;

/// `format!("{:?}")` of a string: its quoted and escaped form, which depends
/// on the string alone.
#[verifier::external_body]
pub(crate) fn quoted(s: &str) -> (r: String)
    ensures
        r@ == quoted_text(s@),
{
    format!("{:?}", s)
}

/// Two pieces of text that encode to the same bytes are the same.
proof fn lemma_encode_injective(a: Seq<char>, b: Seq<char>)
    requires
        encode_utf8(a) == encode_utf8(b),
    ensures
        a == b,
{
    encode_utf8_decode_utf8(a);
    encode_utf8_decode_utf8(b);
}

/// Whether two texts are the same.
pub fn same(a: &str, b: &str) -> (r: bool)
    ensures
        r == (a@ == b@),
{
    let x = a.as_bytes();
    let y = b.as_bytes();
    if x.len() != y.len() {
        return false;
    }
    let mut i: usize = 0;
    while i < x.len()
        invariant
            i <= x@.len(),
            x@.len() == y@.len(),
            x@ == encode_utf8(a@),
            y@ == encode_utf8(b@),
            forall|k: int| 0 <= k < i ==> x@[k] == y@[k],
        decreases x@.len() - i,
    {
        if x[i] != y[i] {
            return false;
        }
        i += 1;
    }
    assert(x@ =~= y@);
    proof {
        lemma_encode_injective(a@, b@);
    }
    true
}

/// The characters of a text.
pub fn chars_of(s: &str) -> (r: Vec<char>)
    ensures
        r@ == s@,
{
    let mut out: Vec<char> = Vec::new();
    for c in it: s.chars()
        invariant
            it.seq() == s@,
            out@ == s@.subrange(0, it.index() as int),
    {
        out.push(c);
        assert(out@ =~= s@.subrange(0, it.index() + 1));
    }
    assert(out@ =~= s@);
    out
}

/// The text made of the characters `from..to` of `chars`.
pub fn text_between(chars: &[char], from: usize, to: usize) -> (r: String)
    requires
        from <= to <= chars@.len(),
    ensures
        r@ == chars@.subrange(from as int, to as int),
{
    let mut out = String::new();
    let mut i: usize = from;
    assert(out@ =~= chars@.subrange(from as int, from as int));
    while i < to
        invariant
            from <= i <= to <= chars@.len(),
            out@ == chars@.subrange(from as int, i as int),
        decreases to - i,
    {
        push_char(&mut out, chars[i]);
        assert(out@ =~= chars@.subrange(from as int, i + 1));
        i += 1;
    }
    out
}

/// The text made of all of `chars`.
pub fn text_of_chars(chars: &[char]) -> (r: String)
    ensures
        r@ == chars@,
{
    let r = text_between(chars, 0, chars.len());
    assert(chars@.subrange(0, chars@.len() as int) =~= chars@);
    r
}

/// A text of its own with the same characters.
pub fn owned(s: &str) -> (r: String)
    ensures
        r@ == s@,
{
    s.to_owned()
}

/// Two pieces joined.
pub fn cat(a: &str, b: &str) -> (r: String)
    ensures
        r@ == a@ + b@,
{
    owned(a).concat(b)
}

/// Three pieces joined.
pub fn cat3(a: &str, b: &str, c: &str) -> (r: String)
    ensures
        r@ == a@ + b@ + c@,
{
    cat(a, b).concat(c)
}

/// Four pieces joined.
pub fn cat4(a: &str, b: &str, c: &str, d: &str) -> (r: String)
    ensures
        r@ == a@ + b@ + c@ + d@,
{
    cat3(a, b, c).concat(d)
}

/// Five pieces joined.
pub fn cat5(a: &str, b: &str, c: &str, d: &str, e: &str) -> (r: String)
    ensures
        r@ == a@ + b@ + c@ + d@ + e@,
{
    cat4(a, b, c, d).concat(e)
}

/// Six pieces joined.
pub fn cat6(a: &str, b: &str, c: &str, d: &str, e: &str, f: &str) -> (r: String)
    ensures
        r@ == a@ + b@ + c@ + d@ + e@ + f@,
{
    cat5(a, b, c, d, e).concat(f)
}

/// Seven pieces joined.
pub fn cat7(a: &str, b: &str, c: &str, d: &str, e: &str, f: &str, g: &str) -> (r: String)
    ensures
        r@ == a@ + b@ + c@ + d@ + e@ + f@ + g@,
{
    cat6(a, b, c, d, e, f).concat(g)
}

/// The character of a decimal digit.
pub open spec fn digit_char(d: int) -> char {
    (48 + d) as char
}

/// The decimal digits of a natural number, most significant first.
pub open spec fn natural_text(n: nat) -> Seq<char>
    decreases n,
{
    if n < 10 {
        seq![digit_char(n as int)]
    } else {
        natural_text(n / 10).push(digit_char((n % 10) as int))
    }
}

/// The decimal form of a number, with a leading minus sign below zero.
pub open spec fn decimal_text(n: int) -> Seq<char> {
    if n < 0 {
        seq!['-'] + natural_text((-n) as nat)
    } else {
        natural_text(n as nat)
    }
}

/// The character of a decimal digit.
fn digit_to_char(d: u8) -> (c: char)
    requires
        d < 10,
    ensures
        c == digit_char(d as int),
{
    (48u8 + d) as char
}

/// The decimal digits of `n`.
pub fn natural(n: u128) -> (r: String)
    ensures
        r@ == natural_text(n as nat),
    decreases n,
{
    if n < 10 {
        let mut s = String::new();
        push_char(&mut s, digit_to_char(n as u8));
        assert(s@ =~= natural_text(n as nat));
        s
    } else {
        let mut s = natural(n / 10);
        push_char(&mut s, digit_to_char((n % 10) as u8));
        s
    }
}

/// The decimal form of `n`.
pub fn decimal(n: i128) -> (r: String)
    ensures
        r@ == decimal_text(n as int),
{
    if n >= 0 {
        natural(n as u128)
    } else {
        let magnitude: u128 = (-1 - n) as u128 + 1;
        let digits = natural(magnitude);
        let mut s = String::new();
        push_char(&mut s, '-');
        s.append(digits.as_str());
        assert(s@ =~= decimal_text(n as int));
        s
    }
}

/// The first place of `c` in `s` at or behind `from`, or the length.
pub open spec fn index_from(s: Seq<char>, c: char, from: int) -> int
    decreases s.len() - from,
{
    if from >= s.len() {
        s.len() as int
    } else if s[from] == c {
        from
    } else {
        index_from(s, c, from + 1)
    }
}

/// The pieces of `s` between the occurrences of `c`.
pub open spec fn split_text(s: Seq<char>, c: char) -> Seq<Seq<char>>
    decreases s.len(),
{
    let i = index_from(s, c, 0);
    if 0 <= i < s.len() {
        seq![s.subrange(0, i)] + split_text(s.subrange(i + 1, s.len() as int), c)
    } else {
        seq![s]
    }
}

/// The views of some texts.
pub open spec fn texts(v: Seq<String>) -> Seq<Seq<char>> {
    v.map_values(|s: String| s@)
}

/// The place lies behind `from`, and no earlier one holds the character.
pub proof fn lemma_index_from(s: Seq<char>, c: char, from: int)
    requires
        0 <= from <= s.len(),
    ensures
        from <= index_from(s, c, from) <= s.len(),
        index_from(s, c, from) < s.len() ==> s[index_from(s, c, from)] == c,
        forall|k: int| from <= k < index_from(s, c, from) ==> s[k] != c,
    decreases s.len() - from,
{
    if from < s.len() && s[from] != c {
        lemma_index_from(s, c, from + 1);
    }
}

/// The place in the rest of a text is the place in the text, moved.
pub proof fn lemma_index_in_rest(s: Seq<char>, c: char, start: int, from: int)
    requires
        0 <= start <= from <= s.len(),
    ensures
        index_from(s.subrange(start, s.len() as int), c, from - start) == index_from(s, c, from)
            - start,
    decreases s.len() - from,
{
    if from < s.len() {
        lemma_index_in_rest(s, c, start, from + 1);
    }
}

/// The first place of `c` at or behind `from`, or the length.
pub fn index_of(chars: &[char], c: char, from: usize) -> (r: usize)
    requires
        from <= chars@.len(),
    ensures
        r == index_from(chars@, c, from as int),
        from <= r <= chars@.len(),
        r < chars@.len() ==> chars@[r as int] == c,
{
    let mut i: usize = from;
    while i < chars.len() && chars[i] != c
        invariant
            from <= i <= chars@.len(),
            index_from(chars@, c, from as int) == index_from(chars@, c, i as int),
        decreases chars@.len() - i,
    {
        i += 1;
    }
    i
}

/// The pieces of `s` between the occurrences of `c`.
pub fn split(s: &str, c: char) -> (r: Vec<String>)
    ensures
        texts(r@) == split_text(s@, c),
{
    let chars = chars_of(s);
    let n: usize = chars.len();
    let mut out: Vec<String> = Vec::new();
    let mut start: usize = 0;
    proof {
        assert(s@.subrange(0, n as int) =~= s@);
        assert(texts(out@) + split_text(s@, c) =~= split_text(s@, c));
    }
    loop
        invariant
            start <= n,
            n == chars@.len(),
            chars@ == s@,
            texts(out@) + split_text(s@.subrange(start as int, n as int), c) == split_text(s@, c),
        decreases n - start,
    {
        let i = index_of(chars.as_slice(), c, start);
        let ghost rest = s@.subrange(start as int, n as int);
        let ghost before = texts(out@);
        proof {
            lemma_index_in_rest(s@, c, start as int, start as int);
            assert(rest.subrange(0, i - start) =~= s@.subrange(start as int, i as int));
        }
        let piece = text_between(chars.as_slice(), start, i);
        out.push(piece);
        assert(texts(out@) =~= before.push(piece@));
        if i >= n {
            assert(rest.subrange(0, i - start) =~= rest);
            assert(texts(out@) =~= before + split_text(rest, c));
            return out;
        }
        proof {
            assert(rest.subrange(i - start + 1, rest.len() as int) =~= s@.subrange(
                i + 1,
                n as int,
            ));
            assert(texts(out@) + split_text(s@.subrange(i + 1, n as int), c) =~= before + (seq![
                piece@,
            ] + split_text(s@.subrange(i + 1, n as int), c)));
        }
        start = i + 1;
    }
}

/// Whether a character is white space (the Unicode property).
pub open spec fn is_space(c: char) -> bool {
    let n = c as u32;
    ||| 0x9 <= n <= 0xD
    ||| n == 0x20
    ||| n == 0x85
    ||| n == 0xA0
    ||| n == 0x1680
    ||| 0x2000 <= n <= 0x200A
    ||| n == 0x2028
    ||| n == 0x2029
    ||| n == 0x202F
    ||| n == 0x205F
    ||| n == 0x3000
}

/// Whether a character is white space.
pub fn is_whitespace(c: char) -> (r: bool)
    ensures
        r == is_space(c),
{
    let n: u32 = c as u32;
    (0x9 <= n && n <= 0xD) || n == 0x20 || n == 0x85 || n == 0xA0 || n == 0x1680 || (0x2000 <= n
        && n <= 0x200A) || n == 0x2028 || n == 0x2029 || n == 0x202F || n == 0x205F || n == 0x3000
}

/// The non-empty pieces of `s` between the occurrences of `delim`.
pub open spec fn segments(s: Seq<char>, delim: char) -> Seq<Seq<char>> {
    split_text(s, delim).filter(|seg: Seq<char>| seg.len() > 0)
}

/// The non-empty pieces of `s` between the occurrences of `delim`.
pub fn split_segments(s: &str, delim: char) -> (r: Vec<String>)
    ensures
        texts(r@) == segments(s@, delim),
{
    let pieces = split(s, delim);
    let ghost keep = |seg: Seq<char>| seg.len() > 0;
    let ghost all = split_text(s@, delim);
    let mut out: Vec<String> = Vec::new();
    let mut i: usize = 0;
    proof {
        reveal(Seq::filter);
        assert(texts(out@) =~= all.subrange(0, 0).filter(keep));
    }
    while i < pieces.len()
        invariant
            i <= pieces@.len(),
            all == texts(pieces@),
            keep == (|seg: Seq<char>| seg.len() > 0),
            texts(out@) == all.subrange(0, i as int).filter(keep),
        decreases pieces@.len() - i,
    {
        let ghost done = texts(out@);
        proof {
            reveal(Seq::filter);
            assert(all.subrange(0, i + 1).drop_last() =~= all.subrange(0, i as int));
        }
        if !pieces[i].as_str().is_empty() {
            out.push(pieces[i].clone());
            assert(texts(out@) =~= done.push(all[i as int]));
        }
        i += 1;
    }
    assert(all.subrange(0, all.len() as int) =~= all);
    out
}

/// Whether a character is a decimal digit.
pub open spec fn is_digit(c: char) -> bool {
    '0' <= c <= '9'
}

/// The number that decimal digits stand for; nothing if they are not all
/// digits.
pub open spec fn digits_value(s: Seq<char>) -> Option<int>
    decreases s.len(),
{
    if s.len() == 0 {
        Some(0)
    } else {
        match digits_value(s.drop_last()) {
            Some(v) => if is_digit(s.last()) {
                Some(v * 10 + (s.last() as u32 - 48))
            } else {
                None
            },
            None => None,
        }
    }
}

/// The number that a text stands for: digits, perhaps behind a plus sign.
pub open spec fn natural_in(s: Seq<char>) -> Option<int> {
    if s.len() > 0 && s[0] == '+' {
        if s.len() > 1 {
            digits_value(s.subrange(1, s.len() as int))
        } else {
            None
        }
    } else if s.len() > 0 {
        digits_value(s)
    } else {
        None
    }
}

/// The number that a text stands for: digits, perhaps behind a sign.
pub open spec fn integer_in(s: Seq<char>) -> Option<int> {
    if s.len() > 1 && s[0] == '-' {
        match digits_value(s.subrange(1, s.len() as int)) {
            Some(v) => Some(-v),
            None => None,
        }
    } else {
        natural_in(s)
    }
}

/// What `parse` gives for an integer type with the range `min..=max`.
pub open spec fn number_in(s: Seq<char>, min: int, max: int) -> Option<int> {
    let found = if min < 0 {
        integer_in(s)
    } else {
        natural_in(s)
    };
    match found {
        Some(v) => if min <= v <= max {
            Some(v)
        } else {
            None
        },
        None => None,
    }
}

/// Further digits make a number no smaller, and no number out of none.
proof fn lemma_digits_grow(s: Seq<char>, n: int)
    requires
        0 <= n <= s.len(),
    ensures
        digits_value(s.subrange(0, n)) is None ==> digits_value(s) is None,
        digits_value(s) matches Some(v) ==> digits_value(s.subrange(0, n)) matches Some(w) && 0 <= w
            <= v,
    decreases s.len() - n,
{
    if n == s.len() {
        assert(s.subrange(0, n) =~= s);
        lemma_digits_natural(s);
    } else {
        assert(s.subrange(0, n + 1).drop_last() =~= s.subrange(0, n));
        lemma_digits_grow(s, n + 1);
        lemma_digits_natural(s.subrange(0, n));
    }
}

proof fn lemma_digits_natural(s: Seq<char>)
    ensures
        digits_value(s) matches Some(v) ==> 0 <= v,
    decreases s.len(),
{
    if s.len() > 0 {
        lemma_digits_natural(s.drop_last());
    }
}

/// The number that the digits from `from` on stand for, up to `max`.
fn parse_digits(chars: &[char], from: usize, max: u128) -> (r: Option<u128>)
    requires
        from <= chars@.len(),
        max <= 0x8000_0000_0000_0000_0000_0000_0000_0000,
    ensures
        ({
            let found = digits_value(chars@.subrange(from as int, chars@.len() as int));
            match r {
                Some(v) => found == Some(v as int) && v <= max,
                None => found is None || found->0 > max,
            }
        }),
{
    let ghost s = chars@.subrange(from as int, chars@.len() as int);
    let n: usize = chars.len();
    let mut v: u128 = 0;
    let mut i: usize = from;
    assert(s.subrange(0, 0) =~= Seq::empty());
    while i < n
        invariant
            from <= i <= n,
            n == chars@.len(),
            s == chars@.subrange(from as int, n as int),
            max <= 0x8000_0000_0000_0000_0000_0000_0000_0000,
            v <= max,
            digits_value(s.subrange(0, i - from)) == Some(v as int),
        decreases n - i,
    {
        let c = chars[i];
        proof {
            assert(s.subrange(0, i + 1 - from).drop_last() =~= s.subrange(0, i - from));
            lemma_digits_grow(s, i + 1 - from);
        }
        if !('0' <= c && c <= '9') {
            return None;
        }
        let d: u128 = (c as u32 - 48) as u128;
        if v > max / 10 {
            return None;
        }
        let next: u128 = v * 10 + d;
        if next > max {
            return None;
        }
        v = next;
        i += 1;
    }
    assert(s.subrange(0, n - from) =~= s);
    Some(v)
}

/// The number that a text stands for within `min..=max`, read as the standard
/// library reads an integer of that range.
pub fn parse_number(s: &str, min: i128, max: i128) -> (r: Option<i128>)
    requires
        min <= 0 <= max,
    ensures
        match r {
            Some(v) => number_in(s@, min as int, max as int) == Some(v as int),
            None => number_in(s@, min as int, max as int) is None,
        },
{
    let chars = chars_of(s);
    let n: usize = chars.len();
    proof {
        assert(chars@.subrange(0, n as int) =~= chars@);
        lemma_digits_natural(s@);
        if n > 0 {
            lemma_digits_natural(s@.subrange(1, n as int));
        }
    }
    if n == 0 {
        return None;
    }
    if min < 0 && n > 1 && chars[0] == '-' {
        let limit: u128 = (-1 - min) as u128 + 1;
        return match parse_digits(chars.as_slice(), 1, limit) {
            Some(v) => {
                if v == limit {
                    Some(min)
                } else {
                    Some(-(v as i128))
                }
            },
            None => None,
        };
    }
    let from: usize = if chars[0] == '+' {
        1
    } else {
        0
    };
    if from == n {
        return None;
    }
    match parse_digits(chars.as_slice(), from, max as u128) {
        Some(v) => Some(v as i128),
        None => None,
    }
}

/// The last place of `c` before `n`, or -1.
pub open spec fn last_index(s: Seq<char>, c: char, n: int) -> int
    decreases n,
{
    if n <= 0 {
        -1
    } else if s[n - 1] == c {
        n - 1
    } else {
        last_index(s, c, n - 1)
    }
}

/// The last place of `c`.
pub fn last_index_of(chars: &[char], c: char) -> (r: Option<usize>)
    ensures
        match r {
            Some(i) => i < chars@.len() && i == last_index(chars@, c, chars@.len() as int),
            None => last_index(chars@, c, chars@.len() as int) == -1,
        },
{
    let mut i: usize = chars.len();
    while i > 0
        invariant
            i <= chars@.len(),
            last_index(chars@, c, chars@.len() as int) == last_index(chars@, c, i as int),
        decreases i,
    {
        if chars[i - 1] == c {
            return Some(i - 1);
        }
        i -= 1;
    }
    None
}

/// A name without its prefix: what stands behind the last colon.
pub open spec fn local_of(s: Seq<char>) -> Seq<char> {
    s.subrange(last_index(s, ':', s.len() as int) + 1, s.len() as int)
}

/// A name without its prefix.
pub fn local_part(s: &str) -> (r: String)
    ensures
        r@ == local_of(s@),
{
    let chars = chars_of(s);
    let n: usize = chars.len();
    let from: usize = match last_index_of(chars.as_slice(), ':') {
        Some(i) => i + 1,
        None => 0,
    };
    text_between(chars.as_slice(), from, n)
}

/// The first place from `from` on that is no white space.
pub open spec fn space_end(s: Seq<char>, from: int) -> int
    decreases s.len() - from,
{
    if from >= s.len() || !is_space(s[from]) {
        from
    } else {
        space_end(s, from + 1)
    }
}

/// The place behind the last one before `to` that is no white space, but no
/// earlier than `from`.
pub open spec fn space_start(s: Seq<char>, from: int, to: int) -> int
    decreases to - from,
{
    if to <= from || !is_space(s[to - 1]) {
        to
    } else {
        space_start(s, from, to - 1)
    }
}

/// A text without white space at its ends.
pub open spec fn trimmed(s: Seq<char>) -> Seq<char> {
    let from = space_end(s, 0);
    s.subrange(from, space_start(s, from, s.len() as int))
}

/// A text without white space at its ends.
pub fn trim(s: &str) -> (r: String)
    ensures
        r@ == trimmed(s@),
{
    let chars = chars_of(s);
    let n: usize = chars.len();
    let mut from: usize = 0;
    while from < n && is_whitespace(chars[from])
        invariant
            from <= n,
            n == chars@.len(),
            space_end(chars@, 0) == space_end(chars@, from as int),
        decreases n - from,
    {
        from += 1;
    }
    let mut to: usize = n;
    while to > from && is_whitespace(chars[to - 1])
        invariant
            from <= to <= n,
            n == chars@.len(),
            space_start(chars@, from as int, n as int) == space_start(
                chars@,
                from as int,
                to as int,
            ),
        decreases to - from,
    {
        to -= 1;
    }
    text_between(chars.as_slice(), from, to)
}

/// The end of the run of other characters than white space at `from`.
pub open spec fn run_end(s: Seq<char>, from: int) -> int
    decreases s.len() - from,
{
    if from >= s.len() || is_space(s[from]) {
        from
    } else {
        run_end(s, from + 1)
    }
}

/// The words of a text from `from` on: its runs of other characters than
/// white space.
pub open spec fn words_from(s: Seq<char>, from: int) -> Seq<Seq<char>>
    decreases s.len() - from,
{
    let start = space_end(s, from);
    let end = run_end(s, start);
    if from <= start < end <= s.len() {
        seq![s.subrange(start, end)] + words_from(s, end)
    } else {
        Seq::empty()
    }
}

/// The words of a text.
pub open spec fn words(s: Seq<char>) -> Seq<Seq<char>> {
    words_from(s, 0)
}

/// The words of a text.
pub fn split_words(s: &str) -> (r: Vec<String>)
    ensures
        texts(r@) == words(s@),
{
    let chars = chars_of(s);
    let n: usize = chars.len();
    let mut out: Vec<String> = Vec::new();
    let mut i: usize = 0;
    assert(texts(out@) + words_from(s@, 0) =~= words(s@));
    loop
        invariant
            i <= n,
            n == chars@.len(),
            chars@ == s@,
            texts(out@) + words_from(s@, i as int) == words(s@),
        decreases n - i,
    {
        let ghost at = i as int;
        let ghost had = texts(out@);
        while i < n && is_whitespace(chars[i])
            invariant
                at <= i <= n,
                n == chars@.len(),
                chars@ == s@,
                space_end(s@, at) == space_end(s@, i as int),
            decreases n - i,
        {
            i += 1;
        }
        let start: usize = i;
        while i < n && !is_whitespace(chars[i])
            invariant
                start <= i <= n,
                n == chars@.len(),
                chars@ == s@,
                run_end(s@, start as int) == run_end(s@, i as int),
            decreases n - i,
        {
            i += 1;
        }
        if start == i {
            assert(texts(out@) + words_from(s@, at) =~= texts(out@));
            return out;
        }
        let word = text_between(chars.as_slice(), start, i);
        out.push(word);
        assert(texts(out@) =~= had.push(word@));
        assert(texts(out@) + words_from(s@, i as int) =~= had + words_from(s@, at));
    }
}

/// Some texts with `sep` between them.
pub open spec fn joined(parts: Seq<Seq<char>>, sep: Seq<char>) -> Seq<char>
    decreases parts.len(),
{
    if parts.len() == 0 {
        Seq::empty()
    } else if parts.len() == 1 {
        parts[0]
    } else {
        joined(parts.drop_last(), sep) + sep + parts.last()
    }
}

/// Some texts with `sep` between them.
pub fn join(parts: &[String], sep: &str) -> (r: String)
    ensures
        r@ == joined(texts(parts@), sep@),
{
    let ghost all = texts(parts@);
    let mut out = String::new();
    let mut i: usize = 0;
    assert(out@ =~= joined(all.subrange(0, 0), sep@));
    while i < parts.len()
        invariant
            i <= parts@.len(),
            all == texts(parts@),
            out@ == joined(all.subrange(0, i as int), sep@),
        decreases parts@.len() - i,
    {
        let ghost next = all.subrange(0, i + 1);
        assert(next.drop_last() =~= all.subrange(0, i as int));
        if i > 0 {
            out.append(sep);
            out.append(parts[i].as_str());
        } else {
            out = parts[i].clone();
        }
        assert(out@ =~= joined(next, sep@));
        i += 1;
    }
    assert(all.subrange(0, parts@.len() as int) =~= all);
    out
}

/// The place of the first of some texts that is `s`, from `from` on.
pub open spec fn find_text(parts: Seq<Seq<char>>, s: Seq<char>, from: int) -> Option<int>
    decreases parts.len() - from,
{
    if from >= parts.len() {
        None
    } else if parts[from] == s {
        Some(from)
    } else {
        find_text(parts, s, from + 1)
    }
}

/// The place of the first of some texts that is `s`.
pub fn position_of(parts: &[String], s: &str) -> (r: Option<usize>)
    ensures
        match r {
            Some(i) => i < parts@.len() && find_text(texts(parts@), s@, 0) == Some(i as int),
            None => find_text(texts(parts@), s@, 0) is None,
        },
{
    let mut i: usize = 0;
    while i < parts.len()
        invariant
            i <= parts@.len(),
            find_text(texts(parts@), s@, 0) == find_text(texts(parts@), s@, i as int),
        decreases parts@.len() - i,
    {
        if same(parts[i].as_str(), s) {
            return Some(i);
        }
        i += 1;
    }
    None
}

/// Whether `s` ends with `end`.
pub open spec fn has_end(s: Seq<char>, end: Seq<char>) -> bool {
    s.len() >= end.len() && s.subrange(s.len() - end.len(), s.len() as int) == end
}

/// Whether `s` ends with `end`.
pub fn ends_with(s: &str, end: &str) -> (r: bool)
    ensures
        r == has_end(s@, end@),
{
    let chars = chars_of(s);
    let n: usize = chars.len();
    let m: usize = chars_of(end).len();
    if m > n {
        return false;
    }
    let tail = text_between(chars.as_slice(), n - m, n);
    same(tail.as_str(), end)
}

/// What stands behind `start` at the beginning of `s`, if it begins so.
pub open spec fn without_start(s: Seq<char>, start: Seq<char>) -> Option<Seq<char>> {
    if s.len() >= start.len() && s.subrange(0, start.len() as int) == start {
        Some(s.subrange(start.len() as int, s.len() as int))
    } else {
        None
    }
}

/// What stands behind `start` at the beginning of `s`, if it begins so.
pub fn strip_start(s: &str, start: &str) -> (r: Option<String>)
    ensures
        match r {
            Some(t) => without_start(s@, start@) == Some(t@),
            None => without_start(s@, start@) is None,
        },
{
    let chars = chars_of(s);
    let n: usize = chars.len();
    let m: usize = chars_of(start).len();
    if m > n {
        return None;
    }
    let head = text_between(chars.as_slice(), 0, m);
    if same(head.as_str(), start) {
        Some(text_between(chars.as_slice(), m, n))
    } else {
        None
    }
}

/// A number below 100 in two digits.
pub open spec fn two_digits(n: int) -> Seq<char> {
    if n < 10 {
        "0"@ + decimal_text(n)
    } else {
        decimal_text(n)
    }
}

/// A number in at least two digits.
pub fn pad_two(n: u8) -> (r: String)
    ensures
        r@ == two_digits(n as int),
{
    let d = decimal(n as i128);
    if n < 10 {
        cat("0", d.as_str())
    } else {
        d
    }
}

/// The two lowercase hex digits of a byte.
pub open spec fn hex_pair(b: u8) -> Seq<char> {
    seq![hex_char(b as int / 16), hex_char(b as int % 16)]
}

/// The lowercase hex digit of a number below 16.
pub open spec fn hex_char(n: int) -> char {
    if n < 10 {
        (48 + n) as char
    } else {
        (97 + n - 10) as char
    }
}

/// The lowercase hex digits of the first `n` bytes.
pub open spec fn hex_text(bytes: Seq<u8>, n: int) -> Seq<char>
    decreases n,
{
    if n <= 0 {
        Seq::empty()
    } else {
        hex_text(bytes, n - 1) + hex_pair(bytes[n - 1])
    }
}

fn hex_digit_char(n: u8) -> (c: char)
    requires
        n < 16,
    ensures
        c == hex_char(n as int),
{
    if n < 10 {
        (48 + n) as char
    } else {
        (97 + (n - 10)) as char
    }
}

/// The lowercase hex digits of some bytes.
pub fn hex(bytes: &[u8]) -> (r: String)
    ensures
        r@ == hex_text(bytes@, bytes@.len() as int),
{
    let mut out = String::new();
    let mut i: usize = 0;
    while i < bytes.len()
        invariant
            i <= bytes@.len(),
            out@ == hex_text(bytes@, i as int),
        decreases bytes@.len() - i,
    {
        let ghost before = out@;
        push_char(&mut out, hex_digit_char(bytes[i] / 16));
        push_char(&mut out, hex_digit_char(bytes[i] % 16));
        assert(out@ =~= before + hex_pair(bytes@[i as int]));
        i += 1;
    }
    out
}

/// The text that bytes are shown as when they need not be UTF-8.
pub uninterp spec fn lossy_text(bytes: Seq<u8>) -> Seq<char>;

/// `String::from_utf8_lossy`: the text that the bytes encode, with a
/// replacement character for what is no UTF-8. It depends on the bytes alone;
/// on valid UTF-8 it is the text that they encode.
#[verifier::external_body]
pub(crate) fn from_utf8_lossy(bytes: &[u8]) -> (r: String)
    ensures
        r@ == lossy_text(bytes@),
        valid_utf8(bytes@) ==> r@ == decode_utf8(bytes@),
{
    String::from_utf8_lossy(bytes).into_owned()
}

} // verus!
