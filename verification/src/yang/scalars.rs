//! Values of the built-in types that need no look at other nodes: numbers,
//! texts, enumerations, bits, decimals and identities.
use vstd::prelude::*;
use vstd::utf8::encode_utf8;

use crate::cbor::value::{lemma_view, value_items, Item, Value as Cbor};
use crate::json::{json_text, to_text, Json, Tree};
use crate::text::{
    cat, cat3, cat4, cat5, chars_of, decimal, decimal_text, index_from, index_of, join, joined,
    number_in, owned, parse_number, push_char, quoted, quoted_text, same, text_between, texts,
};
use crate::yang::schema::{enum_views, EnumVal, EnumView, TypeDef, TypeView};

verus! {

broadcast use lemma_view;

/// Why data cannot be converted.
#[derive(Debug)]
pub struct CodecError(pub String);

impl CodecError {
    /// The message.
    pub fn to_string(&self) -> (r: String)
        ensures
            r@ == self.0@,
    {
        self.0.clone()
    }
}

/// The outcome of making a data item, by its view.
pub open spec fn item_of(r: Result<Cbor, CodecError>) -> Result<Item, Seq<char>> {
    match r {
        Ok(v) => Ok(v@),
        Err(e) => Err(e.0@),
    }
}

/// The outcome of making a JSON value, by its view.
pub open spec fn tree_of(r: Result<Json, CodecError>) -> Result<Tree, Seq<char>> {
    match r {
        Ok(v) => Ok(v@),
        Err(e) => Err(e.0@),
    }
}

/// The low 64 bits of a number, read as a signed number.
pub open spec fn signed_low(x: int) -> int {
    let u = x % 0x1_0000_0000_0000_0000;
    if u >= 0x8000_0000_0000_0000 {
        u - 0x1_0000_0000_0000_0000
    } else {
        u
    }
}

/// The low 64 bits of a number, read as a signed number.
pub fn low_i64(x: i128) -> (r: i64)
    ensures
        r == signed_low(x as int),
{
    if x >= 0 {
        let u: i128 = x % 0x1_0000_0000_0000_0000;
        if u >= 0x8000_0000_0000_0000 {
            (u - 0x1_0000_0000_0000_0000) as i64
        } else {
            u as i64
        }
    } else {
        let n: i128 = (-1 - x) % 0x1_0000_0000_0000_0000;
        assert(x as int % 0x1_0000_0000_0000_0000 == 0xFFFF_FFFF_FFFF_FFFF - n) by {
            let q = (-1 - x) as int / 0x1_0000_0000_0000_0000;
            assert(-1 - x == q * 0x1_0000_0000_0000_0000 + n);
            assert(x == (-q - 1) * 0x1_0000_0000_0000_0000 + (0xFFFF_FFFF_FFFF_FFFF - n));
        }
        let u: i128 = 0xFFFF_FFFF_FFFF_FFFF - n;
        if u >= 0x8000_0000_0000_0000 {
            (u - 0x1_0000_0000_0000_0000) as i64
        } else {
            u as i64
        }
    }
}

/// The low 64 bits of a number, read as an unsigned number.
pub fn low_u64(x: i128) -> (r: u64)
    ensures
        r == x as int % 0x1_0000_0000_0000_0000,
{
    let s = low_i64(x);
    if s < 0 {
        (s as i128 + 0x1_0000_0000_0000_0000) as u64
    } else {
        s as u64
    }
}

/// The whole number that a JSON value is, within 64 bits.
pub open spec fn whole_number(v: Tree) -> Option<int> {
    match v {
        Tree::Integer(i) => if i64::MIN <= i <= u64::MAX {
            Some(i)
        } else {
            None
        },
        _ => None,
    }
}

/// The whole number that a JSON value is, within 64 bits.
pub fn json_number_to_i128(v: &Json) -> (r: Option<i128>)
    ensures
        match r {
            Some(i) => whole_number(v@) == Some(i as int),
            None => whole_number(v@) is None,
        },
{
    match v {
        Json::Integer(i) => if i64::MIN as i128 <= *i && *i <= u64::MAX as i128 {
            Some(*i)
        } else {
            None
        },
        _ => None,
    }
}

/// The number that a data item is.
pub open spec fn item_number(v: Item) -> Option<int> {
    match v {
        Item::Integer(i) => Some(i),
        _ => None,
    }
}

/// The number that a data item is.
pub fn cbor_as_i128(v: &Cbor) -> (r: Option<i128>)
    ensures
        match r {
            Some(i) => item_number(v@) == Some(i as int),
            None => item_number(v@) is None,
        },
{
    match v {
        Cbor::Integer(i) => Some(*i),
        _ => None,
    }
}

/// A short description of a data item for a person.
pub open spec fn item_described(v: Item) -> Seq<char>
    decreases v,
{
    match v {
        Item::Integer(i) => "the number "@ + decimal_text(i),
        Item::Text(t) => "the text "@ + quoted_text(t),
        Item::Bytes(b) => decimal_text(b.len() as int) + " byte(s) of binary data"@,
        Item::Bool(b) => if b {
            "the boolean true"@
        } else {
            "the boolean false"@
        },
        Item::Null => "null"@,
        Item::Array(a) => "a list of "@ + decimal_text(a.len() as int) + " item(s)"@,
        Item::Entries(m) => "a map of "@ + decimal_text(m.len() as int) + " entrie(s)"@,
        Item::Tag(t, inner) => "a tagged value (tag "@ + decimal_text(t as int) + ", containing "@
            + item_described(*inner) + ")"@,
    }
}

/// A short description of a data item for a person.
pub fn describe_cbor(v: &Cbor) -> (r: String)
    ensures
        r@ == item_described(v@),
    decreases v,
{
    match v {
        Cbor::Integer(i) => {
            let n = decimal(*i);
            cat("the number ", n.as_str())
        },
        Cbor::Text(t) => {
            let q = quoted(t.as_str());
            cat("the text ", q.as_str())
        },
        Cbor::Bytes(b) => {
            let n = decimal(b.len() as i128);
            cat(n.as_str(), " byte(s) of binary data")
        },
        Cbor::Bool(b) => if *b {
            owned("the boolean true")
        } else {
            owned("the boolean false")
        },
        Cbor::Null => owned("null"),
        Cbor::Array(a) => {
            let n = decimal(a.len() as i128);
            cat3("a list of ", n.as_str(), " item(s)")
        },
        Cbor::Entries(m) => {
            let n = decimal(m.len() as i128);
            cat3("a map of ", n.as_str(), " entrie(s)")
        },
        Cbor::Tag(t, inner) => {
            let n = decimal(*t as i128);
            let d = describe_cbor(&**inner);
            cat5("a tagged value (tag ", n.as_str(), ", containing ", d.as_str(), ")")
        },
    }
}

/// The message on a response that is not what the schema says.
pub open spec fn unexpected_message(expected: Seq<char>, v: Item) -> Seq<char> {
    "expected "@ + expected + " in the device's response, but got "@ + item_described(v)
        + " -- the loaded YANG catalog may not match this device's firmware"@
}

/// The error on a response that is not what the schema says.
pub fn unexpected_value(expected: &str, v: &Cbor) -> (r: CodecError)
    ensures
        r.0@ == unexpected_message(expected@, v@),
{
    let d = describe_cbor(v);
    CodecError(
        cat5(
            "expected ",
            expected,
            " in the device's response, but got ",
            d.as_str(),
            " -- the loaded YANG catalog may not match this device's firmware",
        ),
    )
}

/// A bound, kept within 64 bits.
pub open spec fn clamped(v: int) -> int {
    if v > i64::MAX {
        i64::MAX as int
    } else if v < i64::MIN {
        i64::MIN as int
    } else {
        v
    }
}

/// A bound, kept within 64 bits.
pub fn range_bound_i64(v: i128) -> (r: i64)
    ensures
        r == clamped(v as int),
{
    if v > i64::MAX as i128 {
        i64::MAX
    } else if v < i64::MIN as i128 {
        i64::MIN
    } else {
        v as i64
    }
}

/// Whether a value lies in one of some ranges; without ranges all do.
pub open spec fn allowed(value: int, ranges: Seq<(i128, i128)>) -> bool {
    ranges.len() == 0 || exists|i: int|
        0 <= i < ranges.len() && clamped((#[trigger] ranges[i]).0 as int) <= value <= clamped(
            ranges[i].1 as int,
        )
}

/// Whether a value lies in one of some ranges.
pub fn in_ranges(value: i128, ranges: &[(i128, i128)]) -> (r: bool)
    ensures
        r == allowed(value as int, ranges@),
{
    if ranges.len() == 0 {
        return true;
    }
    let mut i: usize = 0;
    while i < ranges.len()
        invariant
            i <= ranges@.len(),
            ranges@.len() > 0,
            forall|k: int|
                0 <= k < i ==> !(clamped((#[trigger] ranges@[k]).0 as int) <= value <= clamped(
                    ranges@[k].1 as int,
                )),
        decreases ranges@.len() - i,
    {
        let low = range_bound_i64(ranges[i].0);
        let high = range_bound_i64(ranges[i].1);
        if value >= low as i128 && value <= high as i128 {
            assert(clamped(ranges@[i as int].0 as int) <= value);
            return true;
        }
        i += 1;
    }
    false
}

/// Whether a number of a 64-bit type lies in one of some ranges, if there are
/// any. Bounds count as they are.
pub open spec fn within(value: int, ranges: Seq<(i128, i128)>) -> bool {
    ranges.len() == 0 || exists|i: int|
        0 <= i < ranges.len() && (#[trigger] ranges[i]).0 <= value <= ranges[i].1
}

/// Whether a number of a 64-bit type lies in one of some ranges.
pub fn lies_within(value: i128, ranges: &[(i128, i128)]) -> (r: bool)
    ensures
        r == within(value as int, ranges@),
{
    if ranges.len() == 0 {
        return true;
    }
    let mut i: usize = 0;
    while i < ranges.len()
        invariant
            i <= ranges@.len(),
            ranges@.len() > 0,
            forall|k: int|
                0 <= k < i ==> !((#[trigger] ranges@[k]).0 <= value <= ranges@[k].1),
        decreases ranges@.len() - i,
    {
        if value >= ranges[i].0 && value <= ranges[i].1 {
            assert(ranges@[i as int].0 <= value);
            return true;
        }
        i += 1;
    }
    false
}

/// One range of a 64-bit type in words.
pub open spec fn wide_words(r: (i128, i128)) -> Seq<char> {
    if r.0 == r.1 {
        "exactly "@ + decimal_text(r.0 as int)
    } else {
        "between "@ + decimal_text(r.0 as int) + " and "@ + decimal_text(r.1 as int)
    }
}

/// Some ranges of a 64-bit type in words.
pub open spec fn wide_described(ranges: Seq<(i128, i128)>) -> Seq<char> {
    joined(ranges.map_values(|r: (i128, i128)| wide_words(r)), ", or "@)
}

/// Some ranges of a 64-bit type in words.
pub fn wide_description(ranges: &[(i128, i128)]) -> (r: String)
    ensures
        r@ == wide_described(ranges@),
{
    let mut parts: Vec<String> = Vec::new();
    let mut i: usize = 0;
    while i < ranges.len()
        invariant
            i <= ranges@.len(),
            parts@.len() == i,
            forall|k: int| 0 <= k < i ==> (#[trigger] parts@[k])@ == wide_words(ranges@[k]),
        decreases ranges@.len() - i,
    {
        let l = decimal(ranges[i].0);
        let h = decimal(ranges[i].1);
        if ranges[i].0 == ranges[i].1 {
            parts.push(cat("exactly ", l.as_str()));
        } else {
            parts.push(cat4("between ", l.as_str(), " and ", h.as_str()));
        }
        i += 1;
    }
    assert(texts(parts@) =~= ranges@.map_values(|r: (i128, i128)| wide_words(r)));
    join(parts.as_slice(), ", or ")
}

/// One range in words.
pub open spec fn range_words(r: (i128, i128)) -> Seq<char> {
    let low = clamped(r.0 as int);
    let high = clamped(r.1 as int);
    if low == high {
        "exactly "@ + decimal_text(low)
    } else {
        "between "@ + decimal_text(low) + " and "@ + decimal_text(high)
    }
}

/// Some ranges in words.
pub open spec fn ranges_described(ranges: Seq<(i128, i128)>) -> Seq<char> {
    joined(ranges.map_values(|r: (i128, i128)| range_words(r)), ", or "@)
}

/// Some ranges in words.
pub fn range_description(ranges: &[(i128, i128)]) -> (r: String)
    ensures
        r@ == ranges_described(ranges@),
{
    let mut parts: Vec<String> = Vec::new();
    let mut i: usize = 0;
    while i < ranges.len()
        invariant
            i <= ranges@.len(),
            parts@.len() == i,
            forall|k: int| 0 <= k < i ==> (#[trigger] parts@[k])@ == range_words(ranges@[k]),
        decreases ranges@.len() - i,
    {
        let low = range_bound_i64(ranges[i].0);
        let high = range_bound_i64(ranges[i].1);
        let l = decimal(low as i128);
        let h = decimal(high as i128);
        if low == high {
            parts.push(cat("exactly ", l.as_str()));
        } else {
            parts.push(cat4("between ", l.as_str(), " and ", h.as_str()));
        }
        i += 1;
    }
    assert(texts(parts@) =~= ranges@.map_values(|r: (i128, i128)| range_words(r)));
    join(parts.as_slice(), ", or ")
}

/// Whether a pattern matches somewhere in a text, or why it is no pattern.
pub uninterp spec fn pattern_verdict(pattern: Seq<char>, text: Seq<char>) -> Result<
    bool,
    Seq<char>,
>;

/// `regex::Regex::new` on the pattern, and `is_match` of that expression on
/// the text: whether it matches, or the message of the error on the pattern.
/// Both depend on the pattern and the text alone.
#[verifier::external_body]
fn regex_matches(pattern: &str, text: &str) -> (r: Result<bool, String>)
    ensures
        match r {
            Ok(b) => pattern_verdict(pattern@, text@) == Ok::<bool, Seq<char>>(b),
            Err(e) => pattern_verdict(pattern@, text@) == Err::<bool, Seq<char>>(e@),
        },
{
    regex::Regex::new(pattern).map(|re| re.is_match(text)).map_err(|e| e.to_string())
}

/// Whether a text matches each of some verdicts: the first verdict that is no
/// match decides.
pub open spec fn all_match(
    patterns: Seq<Seq<char>>,
    verdicts: Seq<Result<bool, Seq<char>>>,
    from: int,
) -> Result<bool, Seq<char>>
    decreases verdicts.len() - from,
{
    if from >= verdicts.len() {
        Ok(true)
    } else {
        match verdicts[from] {
            Err(e) => Err(
                "invalid pattern "@ + quoted_text(patterns[from]) + " in schema: "@ + e,
            ),
            Ok(false) => Ok(false),
            Ok(true) => all_match(patterns, verdicts, from + 1),
        }
    }
}

/// The verdict of each pattern on a text.
pub open spec fn verdicts(patterns: Seq<Seq<char>>, s: Seq<char>) -> Seq<Result<bool, Seq<char>>> {
    patterns.map_values(|p: Seq<char>| pattern_verdict(p, s))
}

/// Whether a text matches all of some patterns.
pub fn matches_all_patterns(s: &str, patterns: &[String]) -> (r: Result<bool, CodecError>)
    ensures
        match r {
            Ok(b) => all_match(texts(patterns@), verdicts(texts(patterns@), s@), 0) == Ok::<
                bool,
                Seq<char>,
            >(b),
            Err(e) => all_match(texts(patterns@), verdicts(texts(patterns@), s@), 0) == Err::<
                bool,
                Seq<char>,
            >(e.0@),
        },
{
    let ghost all = texts(patterns@);
    let ghost found = verdicts(all, s@);
    let mut i: usize = 0;
    while i < patterns.len()
        invariant
            i <= patterns@.len(),
            all == texts(patterns@),
            found == verdicts(all, s@),
            all_match(all, found, 0) == all_match(all, found, i as int),
        decreases patterns@.len() - i,
    {
        assert(all[i as int] == patterns@[i as int]@);
        assert(found[i as int] == pattern_verdict(all[i as int], s@));
        match regex_matches(patterns[i].as_str(), s) {
            Ok(b) => {
                if !b {
                    return Ok(false);
                }
            },
            Err(e) => {
                let p = quoted(patterns[i].as_str());
                return Err(
                    CodecError(cat4("invalid pattern ", p.as_str(), " in schema: ", e.as_str())),
                );
            },
        }
        i += 1;
    }
    Ok(true)
}

/// A text that is not as its type wants it: too long or too short, or not
/// matching. The verdicts are those of the type's patterns.
pub open spec fn text_checked(
    ty: TypeView,
    s: Seq<char>,
    found: Seq<Result<bool, Seq<char>>>,
) -> Result<Item, Seq<char>> {
    let len = signed_low(s.len() as int);
    if !allowed(len, ty.ranges) {
        Err(
            quoted_text(s) + " is "@ + decimal_text(len) + " character(s) long, but must be "@
                + ranges_described(ty.ranges),
        )
    } else {
        match all_match(ty.patterns, found, 0) {
            Err(e) => Err(e),
            Ok(false) => Err(
                quoted_text(s) + " is not in the expected format -- it must match: "@ + joined(
                    ty.patterns,
                    " and "@,
                ),
            ),
            Ok(true) => Ok(Item::Text(s)),
        }
    }
}

/// A text of a string type as a data item.
pub fn encode_text(ty: &TypeDef, s: &str) -> (r: Result<Cbor, CodecError>)
    ensures
        item_of(r) == text_checked(ty@, s@, verdicts(ty@.patterns, s@)),
{
    let chars = chars_of(s);
    let len: i64 = low_i64(chars.len() as i128);
    if !in_ranges(len as i128, ty.ranges.as_slice()) {
        let q = quoted(s);
        let n = decimal(len as i128);
        let d = range_description(ty.ranges.as_slice());
        return Err(
            CodecError(
                cat5(
                    q.as_str(),
                    " is ",
                    n.as_str(),
                    " character(s) long, but must be ",
                    d.as_str(),
                ),
            ),
        );
    }
    if !matches_all_patterns(s, ty.patterns.as_slice())? {
        let q = quoted(s);
        let all = join(ty.patterns.as_slice(), " and ");
        return Err(
            CodecError(
                cat3(
                    q.as_str(),
                    " is not in the expected format -- it must match: ",
                    all.as_str(),
                ),
            ),
        );
    }
    Ok(Cbor::Text(owned(s)))
}

/// `n` zeros.
pub open spec fn zeros(n: int) -> Seq<char>
    decreases n,
{
    if n <= 0 {
        Seq::empty()
    } else {
        zeros(n - 1).push('0')
    }
}

/// The value of a decimal in units of its last fraction digit, which has to
/// fit 64 bits, or why the text is none.
pub open spec fn decimal_mantissa(s: Seq<char>, digits: int) -> Result<int, Seq<char>> {
    let negative = s.len() > 0 && s[0] == '-';
    let rest = if negative {
        s.subrange(1, s.len() as int)
    } else {
        s
    };
    let dot = index_from(rest, '.', 0);
    let whole = if dot == 0 || rest.len() == 0 {
        "0"@
    } else {
        rest.subrange(0, dot)
    };
    let fraction = if dot < rest.len() {
        rest.subrange(dot + 1, rest.len() as int)
    } else {
        Seq::empty()
    };
    if encode_utf8(fraction).len() > digits {
        Err(
            quoted_text(s) + " has more decimal places than allowed here (at most "@ + decimal_text(
                digits,
            ) + ")"@,
        )
    } else {
        match number_in(
            whole + fraction + zeros(digits - fraction.len()),
            i128::MIN as int,
            i128::MAX as int,
        ) {
            None => Err(quoted_text(s) + " is not a valid decimal number"@),
            Some(m) => {
                let value = if negative {
                    -m
                } else {
                    m
                };
                if i64::MIN <= value <= i64::MAX {
                    Ok(value)
                } else {
                    Err(quoted_text(s) + " is not a valid decimal number"@)
                }
            },
        }
    }
}

/// A decimal as a data item: always tagged, with the number of fraction
/// digits as the exponent.
pub open spec fn decimal_item(digits: int, mantissa: int) -> Item {
    Item::Tag(
        4,
        Box::new(Item::Array(seq![Item::Integer(-digits), Item::Integer(mantissa)])),
    )
}

/// A value of a decimal type as a data item.
pub open spec fn decimal_encoded(ty: TypeView, v: Tree) -> Result<Item, Seq<char>> {
    match ty.fraction_digits {
        None => Err(
            "this decimal field is missing its fraction-digits setting in the schema -- this looks like a catalog problem"@,
        ),
        Some(digits) => match v {
            Tree::Text(s) => match decimal_mantissa(s, digits as int) {
                Err(e) => Err(e),
                Ok(m) => Ok(decimal_item(digits as int, m)),
            },
            _ => Err(
                "expected a decimal number written as text (e.g. \"12.34\"), got "@ + json_text(v),
            ),
        },
    }
}

/// The value of a decimal in units of its last fraction digit, by its low 64
/// bits.
fn parse_decimal(s: &str, digits: usize) -> (r: Result<i64, CodecError>)
    requires
        digits < 256,
    ensures
        match r {
            Ok(m) => decimal_mantissa(s@, digits as int) == Ok::<int, Seq<char>>(m as int),
            Err(e) => decimal_mantissa(s@, digits as int) == Err::<int, Seq<char>>(e.0@),
        },
{
    let chars = chars_of(s);
    let n: usize = chars.len();
    let negative: bool = n > 0 && chars[0] == '-';
    let from: usize = if negative {
        1
    } else {
        0
    };
    let rest_text = text_between(chars.as_slice(), from, n);
    let rest = chars_of(rest_text.as_str());
    proof {
        assert(s@.subrange(0, n as int) =~= s@);
    }
    let m: usize = rest.len();
    let dot = index_of(rest.as_slice(), '.', 0);
    let whole = if dot == 0 {
        owned("0")
    } else {
        text_between(rest.as_slice(), 0, dot)
    };
    let fraction = if dot < m {
        text_between(rest.as_slice(), dot + 1, m)
    } else {
        String::new()
    };
    if fraction.as_str().as_bytes().len() > digits {
        let q = quoted(s);
        let d = decimal(digits as i128);
        return Err(
            CodecError(
                cat4(
                    q.as_str(),
                    " has more decimal places than allowed here (at most ",
                    d.as_str(),
                    ")",
                ),
            ),
        );
    }
    let have: usize = chars_of(fraction.as_str()).len();
    let mut text = cat(whole.as_str(), fraction.as_str());
    let ghost start = text@;
    let mut k: usize = have;
    assert(text@ =~= start + zeros(0));
    while k < digits
        invariant
            have <= k,
            k <= digits || k == have,
            text@ == start + zeros(k - have),
        decreases digits - k,
    {
        push_char(&mut text, '0');
        k += 1;
        assert(text@ =~= start + zeros(k - have));
    }
    proof {
        if have >= digits {
            assert(zeros(digits - have) =~= zeros(0));
        }
    }
    match parse_number(text.as_str(), i128::MIN, i128::MAX) {
        None => {
            let q = quoted(s);
            Err(CodecError(cat(q.as_str(), " is not a valid decimal number")))
        },
        Some(v) => {
            let value: i128 = if negative && v > i128::MIN {
                -v
            } else if negative {
                i128::MAX
            } else {
                v
            };
            if i64::MIN as i128 <= value && value <= i64::MAX as i128 {
                Ok(value as i64)
            } else {
                let q = quoted(s);
                Err(CodecError(cat(q.as_str(), " is not a valid decimal number")))
            }
        },
    }
}

/// A value of a decimal type as a data item.
pub fn encode_decimal64(ty: &TypeDef, v: &Json, in_union: bool) -> (r: Result<Cbor, CodecError>)
    ensures
        item_of(r) == decimal_encoded(ty@, v@),
{
    let digits: usize = match ty.fraction_digits {
        Some(d) => d as usize,
        None => {
            return Err(
                CodecError(
                    owned(
                        "this decimal field is missing its fraction-digits setting in the schema -- this looks like a catalog problem",
                    ),
                ),
            );
        },
    };
    match v.as_str() {
        Some(s) => {
            let m = parse_decimal(s, digits)?;
            let mut parts: Vec<Cbor> = Vec::new();
            parts.push(Cbor::Integer(-(digits as i128)));
            parts.push(Cbor::Integer(m as i128));
            let ghost pair = seq![Item::Integer(-(digits as int)), Item::Integer(m as int)];
            assert(value_items(parts@) =~= pair);
            Ok(Cbor::tagged(4, Cbor::Array(parts)))
        },
        None => {
            let t = to_text(v);
            Err(
                CodecError(
                    cat(
                        "expected a decimal number written as text (e.g. \"12.34\"), got ",
                        t.as_str(),
                    ),
                ),
            )
        },
    }
}

/// The exponent and the mantissa of a decimal in a response.
pub open spec fn decimal_parts(v: Item) -> Result<(int, int), Seq<char>> {
    match v {
        Item::Tag(t, inner) => if t == 4 {
            match *inner {
                Item::Array(a) => if a.len() == 2 {
                    match (item_number(a[0]), item_number(a[1])) {
                        (None, _) => Err(
                            "the device sent a decimal number whose exponent isn't a valid integer"@,
                        ),
                        (Some(_), None) => Err(
                            "the device sent a decimal number whose value isn't a valid integer"@,
                        ),
                        (Some(e), Some(m)) => Ok((signed_low(e), m)),
                    }
                } else {
                    Err(
                        "the device sent a malformed decimal number ("@ + item_described(*inner)
                            + ")"@,
                    )
                },
                _ => Err(
                    "the device sent a malformed decimal number ("@ + item_described(*inner)
                        + ")"@,
                ),
            }
        } else {
            Err(unexpected_message("a decimal number"@, v))
        },
        _ => Err(unexpected_message("a decimal number"@, v)),
    }
}

/// The exponent and the mantissa of a decimal in a response.
pub fn decimal64_tag_parts(v: &Cbor) -> (r: Result<(i64, i128), CodecError>)
    ensures
        match r {
            Ok((e, m)) => decimal_parts(v@) == Ok::<(int, int), Seq<char>>((e as int, m as int)),
            Err(e) => decimal_parts(v@) == Err::<(int, int), Seq<char>>(e.0@),
        },
{
    match v {
        Cbor::Tag(t, inner) => {
            if *t != 4 {
                return Err(unexpected_value("a decimal number", v));
            }
            match &**inner {
                Cbor::Array(a) => {
                    if a.len() == 2 {
                        assert(inner@ == Item::Array(value_items(a@)));
                        let e = match cbor_as_i128(&a[0]) {
                            Some(e) => e,
                            None => {
                                return Err(
                                    CodecError(
                                        owned(
                                            "the device sent a decimal number whose exponent isn't a valid integer",
                                        ),
                                    ),
                                );
                            },
                        };
                        let m = match cbor_as_i128(&a[1]) {
                            Some(m) => m,
                            None => {
                                return Err(
                                    CodecError(
                                        owned(
                                            "the device sent a decimal number whose value isn't a valid integer",
                                        ),
                                    ),
                                );
                            },
                        };
                        return Ok((low_i64(e), m));
                    }
                },
                _ => {},
            }
            let d = describe_cbor(&**inner);
            Err(CodecError(cat3("the device sent a malformed decimal number (", d.as_str(), ")")))
        },
        _ => Err(unexpected_value("a decimal number", v)),
    }
}

/// The text for a decimal number: how the value `mantissa` times ten to the
/// power of `exponent` is shown.
#[derive(Debug, Clone)]
pub struct DecimalText {
    pub exponent: i64,
    pub mantissa: i128,
    pub text: String,
}

/// What a [`DecimalText`] stands for.
#[verifier::ext_equal]
pub struct DecimalView {
    pub exponent: int,
    pub mantissa: int,
    pub text: Seq<char>,
}

impl View for DecimalText {
    type V = DecimalView;

    open spec fn view(&self) -> DecimalView {
        DecimalView {
            exponent: self.exponent as int,
            mantissa: self.mantissa as int,
            text: self.text@,
        }
    }
}

/// The views of some decimal texts.
pub open spec fn decimal_views(d: Seq<DecimalText>) -> Seq<DecimalView> {
    d.map_values(|t: DecimalText| t@)
}

/// The text for a decimal number, from `from` on.
pub open spec fn decimal_shown(d: Seq<DecimalView>, exponent: int, mantissa: int, from: int) -> Option<
    Seq<char>,
>
    decreases d.len() - from,
{
    if from >= d.len() {
        None
    } else if d[from].exponent == exponent && d[from].mantissa == mantissa {
        Some(d[from].text)
    } else {
        decimal_shown(d, exponent, mantissa, from + 1)
    }
}

/// A decimal in a response as a JSON value. How decimals are shown is given.
pub open spec fn decimal_decoded(v: Item, d: Seq<DecimalView>) -> Result<Tree, Seq<char>> {
    match decimal_parts(v) {
        Err(e) => Err(e),
        Ok((exponent, mantissa)) => match decimal_shown(d, exponent, mantissa, 0) {
            Some(t) => Ok(Tree::Text(t)),
            None => Err(
                "no text was given for the decimal number "@ + decimal_text(mantissa) + "e"@
                    + decimal_text(exponent),
            ),
        },
    }
}

/// A decimal in a response as a JSON value.
pub fn decode_decimal64(v: &Cbor, d: &[DecimalText]) -> (r: Result<Json, CodecError>)
    ensures
        tree_of(r) == decimal_decoded(v@, decimal_views(d@)),
{
    let (exponent, mantissa) = decimal64_tag_parts(v)?;
    let mut i: usize = 0;
    while i < d.len()
        invariant
            i <= d@.len(),
            decimal_parts(v@) == Ok::<(int, int), Seq<char>>((exponent as int, mantissa as int)),
            decimal_shown(decimal_views(d@), exponent as int, mantissa as int, 0) == decimal_shown(
                decimal_views(d@),
                exponent as int,
                mantissa as int,
                i as int,
            ),
        decreases d@.len() - i,
    {
        if d[i].exponent == exponent && d[i].mantissa == mantissa {
            return Ok(Json::String(d[i].text.clone()));
        }
        i += 1;
    }
    let m = decimal(mantissa);
    let e = decimal(exponent as i128);
    Err(
        CodecError(
            cat4("no text was given for the decimal number ", m.as_str(), "e", e.as_str()),
        ),
    )
}

/// The place of the enumeration value with a name, from `from` on.
pub open spec fn enum_named(enums: Seq<EnumView>, name: Seq<char>, from: int) -> Option<int>
    decreases enums.len() - from,
{
    if from >= enums.len() {
        None
    } else if enums[from].name == name {
        Some(from)
    } else {
        enum_named(enums, name, from + 1)
    }
}

/// The place of the enumeration value with a number, from `from` on.
pub open spec fn enum_valued(enums: Seq<EnumView>, n: int, from: int) -> Option<int>
    decreases enums.len() - from,
{
    if from >= enums.len() {
        None
    } else if enums[from].value == n {
        Some(from)
    } else {
        enum_valued(enums, n, from + 1)
    }
}

/// A value of an enumeration as a data item: its number, or its tagged name
/// in a union.
pub open spec fn enum_encoded(ty: TypeView, v: Tree, in_union: bool) -> Result<Item, Seq<char>> {
    match v {
        Tree::Text(name) => match enum_named(ty.enums, name, 0) {
            None => Err(quoted_text(name) + " is not one of the allowed values for this field"@),
            Some(i) => if in_union {
                Ok(Item::Tag(44, Box::new(Item::Text(name))))
            } else {
                Ok(Item::Integer(ty.enums[i].value as int))
            },
        },
        _ => Err("expected one of this field's allowed text values, got "@ + json_text(v)),
    }
}

/// The place of the enumeration value with a name.
pub fn find_enum(enums: &Vec<EnumVal>, name: &str) -> (r: Option<usize>)
    ensures
        match r {
            Some(i) => i < enums@.len() && enum_named(enum_views(enums@), name@, 0) == Some(
                i as int,
            ),
            None => enum_named(enum_views(enums@), name@, 0) is None,
        },
{
    let mut i: usize = 0;
    while i < enums.len()
        invariant
            i <= enums@.len(),
            enum_named(enum_views(enums@), name@, 0) == enum_named(
                enum_views(enums@),
                name@,
                i as int,
            ),
        decreases enums@.len() - i,
    {
        if same(enums[i].name.as_str(), name) {
            return Some(i);
        }
        i += 1;
    }
    None
}

/// A value of an enumeration as a data item.
pub fn encode_enum(ty: &TypeDef, v: &Json, in_union: bool) -> (r: Result<Cbor, CodecError>)
    ensures
        item_of(r) == enum_encoded(ty@, v@, in_union),
{
    match v.as_str() {
        None => {
            let t = to_text(v);
            Err(CodecError(cat("expected one of this field's allowed text values, got ", t.as_str())))
        },
        Some(name) => match find_enum(&ty.enums, name) {
            None => {
                let q = quoted(name);
                Err(CodecError(cat(q.as_str(), " is not one of the allowed values for this field")))
            },
            Some(i) => if in_union {
                Ok(Cbor::tagged(44, Cbor::Text(owned(name))))
            } else {
                Ok(Cbor::Integer(ty.enums[i].value as i128))
            },
        },
    }
}

/// A value of an enumeration in a response as a JSON value: its name, or its
/// number where the schema has none for it.
pub open spec fn enum_decoded(ty: TypeView, v: Item, in_union: bool) -> Result<Tree, Seq<char>> {
    if in_union && v is Tag && v->Tag_0 == 44 {
        match *v->Tag_1 {
            Item::Text(name) => Ok(Tree::Text(name)),
            _ => Err(unexpected_message("text (an enum value)"@, *v->Tag_1)),
        }
    } else {
        match item_number(v) {
            None => Err(unexpected_message("a whole number (an enum value)"@, v)),
            Some(n) => match enum_valued(ty.enums, n, 0) {
                Some(i) => Ok(Tree::Text(ty.enums[i].name)),
                None => Ok(Tree::Integer(signed_low(n))),
            },
        }
    }
}

/// A value of an enumeration in a response as a JSON value.
pub fn decode_enum(ty: &TypeDef, v: &Cbor, in_union: bool) -> (r: Result<Json, CodecError>)
    ensures
        tree_of(r) == enum_decoded(ty@, v@, in_union),
{
    if in_union {
        if let Cbor::Tag(t, inner) = v {
            if *t == 44 {
                return match inner.as_text() {
                    Some(name) => Ok(Json::String(owned(name))),
                    None => Err(unexpected_value("text (an enum value)", &**inner)),
                };
            }
        }
    }
    let n = match cbor_as_i128(v) {
        Some(n) => n,
        None => {
            return Err(unexpected_value("a whole number (an enum value)", v));
        },
    };
    let mut i: usize = 0;
    while i < ty.enums.len()
        invariant
            i <= ty.enums@.len(),
            enum_decoded(ty@, v@, in_union) == (match enum_valued(ty@.enums, n as int, i as int) {
                Some(i) => Ok::<Tree, Seq<char>>(Tree::Text(ty@.enums[i].name)),
                None => Ok::<Tree, Seq<char>>(Tree::Integer(signed_low(n as int))),
            }),
        decreases ty.enums@.len() - i,
    {
        assert(ty@.enums[i as int] == ty.enums@[i as int]@);
        if ty.enums[i].value as i128 == n {
            return Ok(Json::String(ty.enums[i].name.clone()));
        }
        i += 1;
    }
    Ok(Json::Integer(low_i64(n) as i128))
}

} // verus!
