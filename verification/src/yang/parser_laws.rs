//! What the text of modules means.
use vstd::prelude::*;

use crate::text::{index_from, is_space, split_text};
use crate::text_laws::{free_of, law_pieces_stand_between};
use crate::yang::parser::{
    argument_at, block_at, column_at, comment_end, dedented, double_quoted, ending_at,
    further_lines, indent_end, joined_at, keyword_of, module_in, statement_at, string_at,
    trivia_end, without_indent, word_end, Fault, StmtView,
};

verus! {

/// Whether a part stands in a text at a place.
pub open spec fn text_at(chars: Seq<char>, pos: int, part: Seq<char>) -> bool {
    &&& 0 <= pos
    &&& pos + part.len() <= chars.len()
    &&& forall|i: int| 0 <= i < part.len() ==> #[trigger] part[i] == chars[pos + i]
}

/// Each half stands at its own place.
proof fn lemma_halves(chars: Seq<char>, pos: int, a: Seq<char>, b: Seq<char>)
    requires
        text_at(chars, pos, a + b),
    ensures
        text_at(chars, pos, a),
        text_at(chars, pos + a.len(), b),
{
    assert forall|i: int| 0 <= i < a.len() implies #[trigger] a[i] == chars[pos + i] by {
        assert((a + b)[i] == a[i]);
    }
    assert forall|i: int| 0 <= i < b.len() implies #[trigger] b[i] == chars[pos + a.len() + i] by {
        assert((a + b)[a.len() + i] == b[i]);
    }
}

/// Whether a text is a word: nothing in it ends one, and it begins no comment.
pub open spec fn is_word(w: Seq<char>) -> bool {
    &&& w.len() > 0
    &&& w[0] != '/'
    &&& forall|i: int|
        0 <= i < w.len() ==> !is_space(#[trigger] w[i]) && w[i] != '{' && w[i] != '}' && w[i] != ';'
            && w[i] != '"' && w[i] != '\''
}

/// Nothing is passed over before what is neither space nor comment.
proof fn lemma_no_trivia(chars: Seq<char>, pos: int)
    requires
        0 <= pos < chars.len(),
        !is_space(chars[pos]),
        chars[pos] != '/',
    ensures
        trivia_end(chars, pos) == pos,
{
}

/// White space and comments before a statement, an argument or an end are passed
/// over: a comment of one line ends with the line, any other behind the first
/// star and slash.
pub proof fn law_comments_are_passed_over(chars: Seq<char>, pos: int, c: char, x: Seq<char>)
    requires
        0 <= pos,
    ensures
        is_space(c) && text_at(chars, pos, seq![c]) ==> trivia_end(chars, pos) == trivia_end(
            chars,
            pos + 1,
        ),
        free_of(x, '\n') && text_at(chars, pos, "//"@ + x + "\n"@) ==> trivia_end(chars, pos)
            == trivia_end(chars, pos + x.len() + 3),
        free_of(x, '*') && text_at(chars, pos, "/*"@ + x + "*/"@) ==> trivia_end(chars, pos)
            == trivia_end(chars, pos + x.len() + 4),
{
    reveal_strlit("//");
    reveal_strlit("/*");
    reveal_strlit("*/");
    reveal_strlit("\n");
    if is_space(c) && text_at(chars, pos, seq![c]) {
        assert(seq![c][0] == chars[pos + 0]);
    }
    if free_of(x, '\n') && text_at(chars, pos, "//"@ + x + "\n"@) {
        let t = "//"@ + x + "\n"@;
        assert(t[0] == chars[pos + 0] && t[1] == chars[pos + 1]);
        assert forall|k: int| pos <= k < pos + 2 + x.len() implies #[trigger] chars[k] != '\n' by {
            assert(t[k - pos] == chars[pos + (k - pos)]);
            if k >= pos + 2 {
                assert(t[k - pos] == x[k - pos - 2]);
            }
        }
        let e = pos + 2 + x.len();
        assert(t[e - pos] == chars[pos + (e - pos)]);
        lemma_index(chars, '\n', pos, e);
        assert(!is_space('/'));
        assert(trivia_end(chars, pos) == trivia_end(chars, e));
        assert(is_space('\n'));
        assert(trivia_end(chars, e) == trivia_end(chars, e + 1));
    }
    if free_of(x, '*') && text_at(chars, pos, "/*"@ + x + "*/"@) {
        let t = "/*"@ + x + "*/"@;
        assert(t[0] == chars[pos + 0] && t[1] == chars[pos + 1]);
        assert forall|k: int| pos + 2 <= k < pos + 2 + x.len() implies #[trigger] chars[k] != '*' by {
            assert(t[k - pos] == chars[pos + (k - pos)]);
            assert(t[k - pos] == x[k - pos - 2]);
        }
        let e = pos + 2 + x.len();
        assert(t[e - pos] == chars[pos + (e - pos)]);
        assert(t[e + 1 - pos] == chars[pos + (e + 1 - pos)]);
        lemma_comment(chars, pos + 2, e);
        assert(!is_space('/'));
    }
}

/// The first place of a character.
proof fn lemma_index(s: Seq<char>, c: char, from: int, to: int)
    requires
        0 <= from <= to < s.len(),
        forall|k: int| from <= k < to ==> #[trigger] s[k] != c,
        s[to] == c,
    ensures
        index_from(s, c, from) == to,
    decreases to - from,
{
    if from < to {
        lemma_index(s, c, from + 1, to);
    }
}

/// The end of a comment.
proof fn lemma_comment(chars: Seq<char>, from: int, to: int)
    requires
        0 <= from <= to,
        to + 1 < chars.len(),
        forall|k: int| from <= k < to ==> #[trigger] chars[k] != '*',
        chars[to] == '*',
        chars[to + 1] == '/',
    ensures
        comment_end(chars, from) == to + 2,
    decreases to - from,
{
    if from < to {
        lemma_comment(chars, from + 1, to);
    }
}

/// The end of a word.
proof fn lemma_word_end(chars: Seq<char>, pos: int, to: int)
    requires
        0 <= pos <= to < chars.len(),
        forall|i: int|
            pos <= i < to ==> !is_space(#[trigger] chars[i]) && chars[i] != '{' && chars[i] != '}'
                && chars[i] != ';' && chars[i] != '"' && chars[i] != '\'',
        is_space(chars[to]) || chars[to] == '{' || chars[to] == '}' || chars[to] == ';' || chars[to]
            == '"' || chars[to] == '\'',
    ensures
        word_end(chars, pos) == to,
    decreases to - pos,
{
    if pos < to {
        lemma_word_end(chars, pos + 1, to);
    }
}

/// A text as it stands between double quotes: a quote, a backslash and a tab
/// have a backslash before them.
pub open spec fn escaped(s: Seq<char>) -> Seq<char>
    decreases s.len(),
{
    if s.len() == 0 {
        Seq::empty()
    } else {
        (if s[0] == '"' {
            seq!['\\', '"']
        } else if s[0] == '\\' {
            seq!['\\', '\\']
        } else if s[0] == '\t' {
            seq!['\\', 't']
        } else {
            seq![s[0]]
        }) + escaped(s.subrange(1, s.len() as int))
    }
}

/// What stands between double quotes is read as what was written.
proof fn lemma_double_quoted(chars: Seq<char>, pos: int, raw: Seq<char>, s: Seq<char>)
    requires
        text_at(chars, pos, escaped(s) + seq!['"']),
    ensures
        double_quoted(chars, pos, raw) == Ok::<(Seq<char>, int), Fault>(
            (raw + s, pos + escaped(s).len() + 1),
        ),
    decreases s.len(),
{
    let t = escaped(s) + seq!['"'];
    assert(t[0] == chars[pos + 0]);
    if s.len() == 0 {
        assert(raw + s =~= raw);
    } else {
        let rest = s.subrange(1, s.len() as int);
        let first = if s[0] == '"' {
            seq!['\\', '"']
        } else if s[0] == '\\' {
            seq!['\\', '\\']
        } else if s[0] == '\t' {
            seq!['\\', 't']
        } else {
            seq![s[0]]
        };
        assert(t =~= first + (escaped(rest) + seq!['"']));
        lemma_halves(chars, pos, first, escaped(rest) + seq!['"']);
        assert(first[0] == chars[pos + 0]);
        lemma_double_quoted(chars, pos + first.len(), raw.push(s[0]), rest);
        assert(raw.push(s[0]) + rest =~= raw + s);
        if first.len() == 2 {
            assert(first[1] == chars[pos + 1]);
            assert(raw + seq![s[0]] =~= raw.push(s[0]));
        }
    }
}

/// A text of one line keeps its spaces.
proof fn lemma_one_line(raw: Seq<char>, col: int)
    requires
        free_of(raw, '\n'),
    ensures
        dedented(raw, col) == raw,
{
    law_pieces_stand_between(raw, '\n', Seq::empty());
    let lines = split_text(raw, '\n');
    assert(lines[0] == raw);
    assert(further_lines(lines, 1, crate::yang::parser::capped(col + 1)) =~= Seq::empty());
    assert(dedented(raw, col) =~= raw);
}

/// A string in double quotes is what stands between them: a backslash before a
/// quote, a backslash or a `t` makes one character with it.
pub proof fn law_strings_in_double_quotes(chars: Seq<char>, pos: int, s: Seq<char>)
    requires
        free_of(s, '\n'),
        text_at(chars, pos, seq!['"'] + (escaped(s) + seq!['"'])),
    ensures
        string_at(chars, pos) == Ok::<(Seq<char>, int), Fault>((s, pos + escaped(s).len() + 2)),
{
    lemma_halves(chars, pos, seq!['"'], escaped(s) + seq!['"']);
    assert(seq!['"'][0] == chars[pos + 0]);
    lemma_double_quoted(chars, pos + 1, Seq::empty(), s);
    assert(Seq::<char>::empty() + s =~= s);
    lemma_one_line(s, column_at(chars, pos));
}

/// A backslash and an `n` in double quotes are a new line; a backslash before
/// any other character stays.
pub proof fn law_other_escapes(chars: Seq<char>, pos: int, raw: Seq<char>, c: char)
    requires
        text_at(chars, pos, seq!['\\', c]),
    ensures
        c == 'n' ==> double_quoted(chars, pos, raw) == double_quoted(chars, pos + 2, raw.push('\n')),
        c != 'n' && c != 't' && c != '"' && c != '\\' ==> double_quoted(chars, pos, raw)
            == double_quoted(chars, pos + 2, raw.push('\\').push(c)),
{
    let t = seq!['\\', c];
    assert(t[0] == chars[pos + 0] && t[1] == chars[pos + 1]);
    assert(raw + seq!['\n'] =~= raw.push('\n'));
    assert(raw + seq!['\\', c] =~= raw.push('\\').push(c));
}

/// A string in single quotes is all that stands between them, and a word is
/// itself.
pub proof fn law_other_strings(chars: Seq<char>, pos: int, s: Seq<char>)
    ensures
        free_of(s, '\'') && text_at(chars, pos, seq!['\''] + (s + seq!['\''])) ==> string_at(
            chars,
            pos,
        ) == Ok::<(Seq<char>, int), Fault>((s, pos + s.len() + 2)),
        is_word(s) && (text_at(chars, pos, s + seq![';']) || text_at(chars, pos, s + seq!['{'])
            || text_at(chars, pos, s + seq![' '])) ==> string_at(chars, pos) == Ok::<
            (Seq<char>, int),
            Fault,
        >((s, pos + s.len())),
{
    if free_of(s, '\'') && text_at(chars, pos, seq!['\''] + (s + seq!['\''])) {
        lemma_halves(chars, pos, seq!['\''], s + seq!['\'']);
        lemma_halves(chars, pos + 1, s, seq!['\'']);
        assert(seq!['\''][0] == chars[pos + 0]);
        let e = pos + 1 + s.len();
        assert(seq!['\''][0] == chars[e + 0]);
        assert forall|k: int| pos + 1 <= k < e implies #[trigger] chars[k] != '\'' by {
            assert(s[k - pos - 1] == chars[pos + 1 + (k - pos - 1)]);
        }
        lemma_index(chars, '\'', pos + 1, e);
        assert(chars.subrange(pos + 1, e) =~= s);
    }
    if is_word(s) && (text_at(chars, pos, s + seq![';']) || text_at(chars, pos, s + seq!['{'])
        || text_at(chars, pos, s + seq![' '])) {
        let c = if text_at(chars, pos, s + seq![';']) {
            ';'
        } else if text_at(chars, pos, s + seq!['{']) {
            '{'
        } else {
            ' '
        };
        lemma_word(chars, pos, s, c);
        assert(s[0] == chars[pos + 0]);
    }
}

/// A word up to what ends it.
proof fn lemma_word(chars: Seq<char>, pos: int, w: Seq<char>, c: char)
    requires
        is_word(w),
        text_at(chars, pos, w + seq![c]),
        is_space(c) || c == '{' || c == ';',
    ensures
        word_end(chars, pos) == pos + w.len(),
        chars.subrange(pos, pos + w.len()) == w,
        chars[pos] == w[0],
        chars[pos + w.len()] == c,
{
    lemma_halves(chars, pos, w, seq![c]);
    assert(seq![c][0] == chars[pos + w.len() + 0]);
    assert(w[0] == chars[pos + 0]);
    assert forall|i: int| pos <= i < pos + w.len() implies !is_space(#[trigger] chars[i]) && chars[i]
        != '{' && chars[i] != '}' && chars[i] != ';' && chars[i] != '"' && chars[i] != '\'' by {
        assert(w[i - pos] == chars[pos + (i - pos)]);
    }
    lemma_word_end(chars, pos, pos + w.len());
    assert(chars.subrange(pos, pos + w.len()) =~= w);
}

/// Whether a statement can be written: its keyword, and its prefix if it has
/// one, are words without a colon, and its argument is of one line.
pub open spec fn writable(s: StmtView) -> bool
    decreases s,
{
    &&& is_word(s.keyword) && free_of(s.keyword, ':')
    &&& s.prefix matches Some(p) ==> is_word(p) && free_of(p, ':')
    &&& s.arg matches Some(a) ==> free_of(a, '\n')
    &&& forall|i: int| 0 <= i < s.subs.len() ==> writable(#[trigger] s.subs[i])
}

/// A keyword with its prefix.
pub open spec fn head_of(s: StmtView) -> Seq<char> {
    match s.prefix {
        Some(p) => p + seq![':'] + s.keyword,
        None => s.keyword,
    }
}

/// The text of a statement: its keyword, its argument in double quotes, and its
/// substatements in braces or a semicolon where there are none.
pub open spec fn written(s: StmtView) -> Seq<char>
    decreases s, 1int,
{
    let end = if s.subs.len() == 0 {
        seq![';']
    } else {
        seq!['{'] + (all_written(s, s.subs.len() as int) + seq!['}'])
    };
    match s.arg {
        Some(a) => head_of(s) + (seq![' '] + (seq!['"'] + (escaped(a) + seq!['"']) + end)),
        None => head_of(s) + end,
    }
}

/// The texts of the first `n` substatements.
pub open spec fn all_written(s: StmtView, n: int) -> Seq<char>
    decreases s, 0int, n,
{
    if n <= 0 || n > s.subs.len() {
        Seq::empty()
    } else {
        all_written(s, n - 1) + written(s.subs[n - 1])
    }
}

/// A keyword is read with its prefix.
proof fn lemma_keyword(s: StmtView)
    requires
        writable(s),
    ensures
        keyword_of(head_of(s)) == (s.prefix, s.keyword),
        is_word(head_of(s)),
{
    let h = head_of(s);
    match s.prefix {
        Some(p) => {
            assert(h[0] == p[0]);
            assert forall|i: int| 0 <= i < h.len() implies !is_space(#[trigger] h[i]) && h[i] != '{'
                && h[i] != '}' && h[i] != ';' && h[i] != '"' && h[i] != '\'' by {
                if i < p.len() {
                    assert(h[i] == p[i]);
                } else if i > p.len() {
                    assert(h[i] == s.keyword[i - p.len() - 1]);
                } else {
                    assert(h[i] == ':');
                }
            }
            assert forall|k: int| 0 <= k < p.len() implies #[trigger] h[k] != ':' by {
                assert(h[k] == p[k]);
            }
            assert(h[p.len() as int] == ':');
            lemma_index(h, ':', 0, p.len() as int);
            assert(h.subrange(0, p.len() as int) =~= p);
            assert(h.subrange(p.len() + 1int, h.len() as int) =~= s.keyword);
        },
        None => {
            lemma_none(h, ':', 0);
        },
    }
}

/// A character that is not there.
proof fn lemma_none(s: Seq<char>, c: char, from: int)
    requires
        free_of(s, c),
        0 <= from <= s.len(),
    ensures
        index_from(s, c, from) == s.len(),
    decreases s.len() - from,
{
    if from < s.len() {
        lemma_none(s, c, from + 1);
    }
}

/// The end of a statement as it is written.
spec fn end_of(s: StmtView) -> Seq<char> {
    if s.subs.len() == 0 {
        seq![';']
    } else {
        seq!['{'] + (all_written(s, s.subs.len() as int) + seq!['}'])
    }
}

/// The text of a statement is read as that statement, wherever it stands.
proof fn lemma_read(chars: Seq<char>, pos: int, s: StmtView)
    requires
        writable(s),
        text_at(chars, pos, written(s)),
    ensures
        statement_at(chars, pos) == Ok::<(StmtView, int), Fault>((s, pos + written(s).len())),
        written(s).len() > 0,
        written(s)[0] == head_of(s)[0],
    decreases s, 2int,
{
    lemma_keyword(s);
    let h = head_of(s);
    let end = end_of(s);
    match s.arg {
        Some(a) => {
            let quoted = seq!['"'] + (escaped(a) + seq!['"']);
            let tail = seq![' '] + (quoted + end);
            assert(written(s) == h + tail);
            assert(h + tail =~= (h + seq![' ']) + (quoted + end));
            lemma_halves(chars, pos, h + seq![' '], quoted + end);
            lemma_word(chars, pos, h, ' ');
            lemma_no_trivia(chars, pos);
            let q = pos + h.len();
            let r = q + 1;
            lemma_halves(chars, r, quoted, end);
            assert(quoted[0] == chars[r + 0]);
            assert(is_space(' '));
            lemma_no_trivia(chars, r);
            assert(trivia_end(chars, q) == r);
            law_strings_in_double_quotes(chars, r, a);
            let e = r + quoted.len();
            assert(end[0] == chars[e + 0]);
            lemma_no_trivia(chars, e);
            assert(joined_at(chars, e, a) == Ok::<(Seq<char>, int), Fault>((a, e)));
            assert(argument_at(chars, r) == Ok::<(Seq<char>, int), Fault>((a, e)));
            lemma_end(chars, e, s);
            assert(written(s)[0] == h[0]);
            assert(pos + written(s).len() == e + end.len());
        },
        None => {
            assert(written(s) == h + end);
            let c = end[0];
            lemma_halves(chars, pos, h, end);
            assert(end[0] == chars[pos + h.len() + 0]);
            assert(text_at(chars, pos, h + seq![c])) by {
                assert forall|i: int| 0 <= i < h.len() + 1 implies #[trigger] (h + seq![c])[i]
                    == chars[pos + i] by {
                    if i < h.len() {
                        assert(h[i] == chars[pos + i]);
                    }
                }
            }
            lemma_word(chars, pos, h, c);
            lemma_no_trivia(chars, pos);
            let r = pos + h.len();
            lemma_no_trivia(chars, r);
            lemma_end(chars, r, s);
            assert(written(s)[0] == h[0]);
        },
    }
}

/// The end of a statement is read with its substatements.
proof fn lemma_end(chars: Seq<char>, pos: int, s: StmtView)
    requires
        writable(s),
        text_at(chars, pos, end_of(s)),
    ensures
        ending_at(chars, pos, s.prefix, s.keyword, s.arg) == Ok::<(StmtView, int), Fault>(
            (s, pos + end_of(s).len()),
        ),
    decreases s, 1int,
{
    let end = end_of(s);
    assert(end[0] == chars[pos + 0]);
    if s.subs.len() == 0 {
        assert(s.subs =~= Seq::empty());
    } else {
        let n = s.subs.len() as int;
        let inner = all_written(s, n);
        lemma_halves(chars, pos, seq!['{'], inner + seq!['}']);
        lemma_halves(chars, pos + 1, inner, seq!['}']);
        assert(seq!['}'][0] == chars[pos + 1 + inner.len() + 0]);
        assert(s.subs.subrange(0, 0) =~= Seq::empty());
        assert(s.subs.subrange(0, n) =~= s.subs);
        assert(all_written(s, 0) =~= Seq::empty());
        lemma_block(chars, pos + 1, s, 0);
    }
}

/// The rest of a block is read behind its first `k` statements.
proof fn lemma_block(chars: Seq<char>, start: int, s: StmtView, k: int)
    requires
        writable(s),
        0 <= k <= s.subs.len(),
        text_at(chars, start, all_written(s, s.subs.len() as int)),
        start + all_written(s, s.subs.len() as int).len() < chars.len(),
        chars[start + all_written(s, s.subs.len() as int).len()] == '}',
    ensures
        block_at(chars, start + all_written(s, k).len(), s.subs.subrange(0, k)) == Ok::<
            (Seq<StmtView>, int),
            Fault,
        >((s.subs, start + all_written(s, s.subs.len() as int).len() + 1)),
    decreases s, 0int, s.subs.len() - k,
{
    let n = s.subs.len() as int;
    let p = start + all_written(s, k).len();
    if k == n {
        lemma_no_trivia(chars, p);
        assert(s.subs.subrange(0, n) =~= s.subs);
    } else {
        lemma_prefix(s, k + 1, n);
        let sub = s.subs[k];
        let up = all_written(s, k + 1);
        let rest = all_written(s, n).subrange(up.len() as int, all_written(s, n).len() as int);
        assert(all_written(s, n) =~= up + rest);
        lemma_halves(chars, start, up, rest);
        assert(up == all_written(s, k) + written(sub));
        lemma_halves(chars, start, all_written(s, k), written(sub));
        lemma_read(chars, p, sub);
        lemma_keyword(sub);
        assert(written(sub)[0] == chars[p + 0]);
        lemma_no_trivia(chars, p);
        lemma_block(chars, start, s, k + 1);
        assert(s.subs.subrange(0, k).push(sub) =~= s.subs.subrange(0, k + 1));
    }
}

/// The first statements stand before the others.
proof fn lemma_prefix(s: StmtView, k: int, n: int)
    requires
        0 <= k <= n <= s.subs.len(),
    ensures
        all_written(s, n).len() >= all_written(s, k).len(),
        all_written(s, n).subrange(0, all_written(s, k).len() as int) == all_written(s, k),
    decreases n - k,
{
    if k < n {
        lemma_prefix(s, k, n - 1);
        assert(all_written(s, n).subrange(0, all_written(s, k).len() as int) =~= all_written(
            s,
            n - 1,
        ).subrange(0, all_written(s, k).len() as int));
    } else {
        assert(all_written(s, n).subrange(0, all_written(s, k).len() as int) =~= all_written(s, k));
    }
}

/// A module or submodule that is written down, with its prefixes, arguments in
/// quotes and substatements in braces, is read as that module. Any other
/// statement is refused, and so is anything but white space or a comment behind
/// the module.
pub proof fn law_written_modules_are_read(s: StmtView, more: Seq<char>)
    requires
        writable(s),
        more.len() > 0 && more[0] != '/' && !is_space(more[0]),
    ensures
        s.keyword == "module"@ || s.keyword == "submodule"@ ==> module_in(written(s)) == Ok::<
            StmtView,
            Fault,
        >(s),
        s.keyword != "module"@ && s.keyword != "submodule"@ ==> module_in(written(s)) is Err,
        module_in(written(s) + more) is Err,
{
    let chars = written(s);
    lemma_read(chars, 0, s);
    let longer = chars + more;
    assert(text_at(longer, 0, written(s)));
    lemma_read(longer, 0, s);
    assert(longer[chars.len() as int] == more[0]);
    lemma_no_trivia(longer, chars.len() as int);
}

/// Strings with a plus sign between them are one argument.
pub proof fn law_strings_are_joined(chars: Seq<char>, pos: int, a: Seq<char>, b: Seq<char>)
    requires
        free_of(a, '\''),
        free_of(b, '\''),
        text_at(
            chars,
            pos,
            seq!['\''] + (a + seq!['\'']) + (seq!['+'] + (seq!['\''] + (b + seq!['\'']) + seq![';'])),
        ),
    ensures
        argument_at(chars, pos) == Ok::<(Seq<char>, int), Fault>(
            (a + b, pos + a.len() + b.len() + 5),
        ),
{
    let x = seq!['\''] + (a + seq!['\'']);
    let y = seq!['\''] + (b + seq!['\'']);
    lemma_halves(chars, pos, x, seq!['+'] + (y + seq![';']));
    let p = pos + x.len();
    lemma_halves(chars, p, seq!['+'], y + seq![';']);
    lemma_halves(chars, p + 1, y, seq![';']);
    law_other_strings(chars, pos, a);
    law_other_strings(chars, p + 1, b);
    let e = p + 1 + y.len();
    assert(seq!['+'][0] == chars[p + 0]);
    assert(y[0] == chars[p + 1 + 0]);
    assert(seq![';'][0] == chars[e + 0]);
    lemma_no_trivia(chars, p);
    lemma_no_trivia(chars, p + 1);
    lemma_no_trivia(chars, e);
    assert(joined_at(chars, e, a + b) == Ok::<(Seq<char>, int), Fault>((a + b, e)));
    assert(joined_at(chars, p, a) == Ok::<(Seq<char>, int), Fault>((a + b, e)));
}

/// `n` blanks.
pub open spec fn blanks(n: int) -> Seq<char> {
    Seq::new(n as nat, |i: int| ' ')
}

/// A further line of a string in double quotes loses its blanks up to the column
/// behind the one of the opening quote, and keeps what else it has.
pub proof fn law_further_lines_lose_their_indentation(
    a: Seq<char>,
    k: int,
    b: Seq<char>,
    col: int,
)
    requires
        free_of(a, '\n'),
        free_of(b, '\n'),
        0 <= k,
        0 <= col < 0xFFFF,
        b.len() > 0 ==> b[0] != ' ' && b[0] != '\t',
    ensures
        k <= col + 1 ==> dedented(a + seq!['\n'] + (blanks(k) + b), col) == a + seq!['\n'] + b,
        k > col + 1 ==> dedented(a + seq!['\n'] + (blanks(k) + b), col) == a + seq!['\n'] + (blanks(
            k - col - 1,
        ) + b),
{
    let line = blanks(k) + b;
    assert(free_of(line, '\n'));
    law_pieces_stand_between(a, '\n', line);
    law_pieces_stand_between(line, '\n', Seq::empty());
    let lines = split_text(a + seq!['\n'] + line, '\n');
    assert(lines =~= seq![a, line]);
    let cut = if k <= col + 1 {
        k
    } else {
        col + 1
    };
    lemma_indent(line, 0, cut, col + 1);
    assert(further_lines(lines, 1, col + 1) =~= Seq::empty());
    assert(further_lines(lines, 2, col + 1) =~= seq!['\n'] + without_indent(line, col + 1));
    if k <= col + 1 {
        assert(without_indent(line, col + 1) =~= b);
        assert(dedented(a + seq!['\n'] + line, col) =~= a + seq!['\n'] + b);
    } else {
        assert(without_indent(line, col + 1) =~= blanks(k - col - 1) + b);
        assert(dedented(a + seq!['\n'] + line, col) =~= a + seq!['\n'] + (blanks(k - col - 1) + b));
    }
}

/// Where the indentation ends.
proof fn lemma_indent(line: Seq<char>, i: int, cut: int, max: int)
    requires
        0 <= i <= cut <= max <= 0xFFFF,
        cut <= line.len(),
        forall|j: int| 0 <= j < cut ==> #[trigger] line[j] == ' ',
        cut == max || cut == line.len() || (line[cut] != ' ' && line[cut] != '\t'),
    ensures
        indent_end(line, i, i, max) == cut,
    decreases cut - i,
{
    if i < cut {
        lemma_indent(line, i + 1, cut, max);
    }
}

} // verus!
