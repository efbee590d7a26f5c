//! The text of YANG modules as trees of statements.
use vstd::prelude::*;

use crate::text::{
    cat, cat3, cat5, chars_of, decimal, decimal_text, index_from, index_of, is_space, is_whitespace,
    lemma_index_from, owned, push_char,
    same, split, split_text, text_between, text_of_chars, texts,
};

verus! {

/// One statement: `keyword [argument] (";" | "{" *stmt "}")`. The prefix is
/// there only for an extension statement.
#[derive(Debug, PartialEq, Eq)]
pub struct Stmt {
    pub prefix: Option<String>,
    pub keyword: String,
    pub arg: Option<String>,
    pub subs: Vec<Stmt>,
}

/// What a [`Stmt`] stands for.
#[verifier::ext_equal]
pub struct StmtView {
    pub prefix: Option<Seq<char>>,
    pub keyword: Seq<char>,
    pub arg: Option<Seq<char>>,
    pub subs: Seq<StmtView>,
}

/// The characters of an optional text.
pub open spec fn opt_text(s: Option<String>) -> Option<Seq<char>> {
    match s {
        Some(s) => Some(s@),
        None => None,
    }
}

/// The statement that `s` stands for.
pub open spec fn stmt_view(s: Stmt) -> StmtView
    decreases s,
{
    StmtView {
        prefix: opt_text(s.prefix),
        keyword: s.keyword@,
        arg: opt_text(s.arg),
        subs: Seq::new(
            s.subs@.len(),
            |i: int|
                if 0 <= i < s.subs@.len() {
                    stmt_view(s.subs@[i])
                } else {
                    arbitrary()
                },
        ),
    }
}

/// The statements that some values stand for.
pub open spec fn stmt_views(subs: Seq<Stmt>) -> Seq<StmtView> {
    subs.map_values(|s: Stmt| s@)
}

impl View for Stmt {
    type V = StmtView;

    open spec fn view(&self) -> StmtView {
        stmt_view(*self)
    }
}

/// The view of a statement holds the views of its substatements.
pub broadcast proof fn lemma_stmt_view(s: Stmt)
    ensures
        (#[trigger] s@).subs == stmt_views(s.subs@),
{
    assert(s@.subs =~= stmt_views(s.subs@));
}

/// The substatements of a statement are below it.
pub proof fn lemma_sub_below(s: Stmt, i: int)
    requires
        0 <= i < s.subs@.len(),
    ensures
        decreases_to!(s => s.subs@[i]),
{
}

/// Whether a statement is no extension and has this keyword.
pub open spec fn is_kind(s: StmtView, keyword: Seq<char>) -> bool {
    s.prefix is None && s.keyword == keyword
}

/// The place of the first statement with this keyword, from `from` on.
pub open spec fn find_kind(subs: Seq<StmtView>, keyword: Seq<char>, from: int) -> Option<int>
    decreases subs.len() - from,
{
    if from >= subs.len() {
        None
    } else if is_kind(subs[from], keyword) {
        Some(from)
    } else {
        find_kind(subs, keyword, from + 1)
    }
}

/// The first substatement with this keyword.
pub open spec fn sub_of(s: StmtView, keyword: Seq<char>) -> Option<StmtView> {
    match find_kind(s.subs, keyword, 0) {
        Some(i) => Some(s.subs[i]),
        None => None,
    }
}

/// All of the first `n` substatements with this keyword.
pub open spec fn kinds(subs: Seq<StmtView>, keyword: Seq<char>, n: int) -> Seq<StmtView>
    decreases n,
{
    if n <= 0 {
        Seq::empty()
    } else if is_kind(subs[n - 1], keyword) {
        kinds(subs, keyword, n - 1).push(subs[n - 1])
    } else {
        kinds(subs, keyword, n - 1)
    }
}

/// All substatements with this keyword.
pub open spec fn all_subs(s: StmtView, keyword: Seq<char>) -> Seq<StmtView> {
    kinds(s.subs, keyword, s.subs.len() as int)
}

/// The argument, or nothing if there is none.
pub open spec fn arg_of(s: StmtView) -> Seq<char> {
    match s.arg {
        Some(a) => a,
        None => Seq::empty(),
    }
}

/// The views of some referenced statements.
pub open spec fn ref_views(refs: Seq<&Stmt>) -> Seq<StmtView> {
    refs.map_values(|s: &Stmt| s@)
}

impl Stmt {
    /// Whether this is no extension and has this keyword.
    pub fn is(&self, keyword: &str) -> (r: bool)
        ensures
            r == is_kind(self@, keyword@),
    {
        self.prefix.is_none() && same(self.keyword.as_str(), keyword)
    }

    /// The first substatement with this keyword.
    pub fn sub(&self, keyword: &str) -> (r: Option<&Stmt>)
        ensures
            match r {
                Some(s) => sub_of(self@, keyword@) == Some(s@) && decreases_to!(*self => *s),
                None => sub_of(self@, keyword@) is None,
            },
    {
        broadcast use lemma_stmt_view;

        let mut i: usize = 0;
        while i < self.subs.len()
            invariant
                i <= self.subs@.len(),
                find_kind(self@.subs, keyword@, 0) == find_kind(self@.subs, keyword@, i as int),
                self@.subs == stmt_views(self.subs@),
            decreases self.subs@.len() - i,
        {
            if self.subs[i].is(keyword) {
                proof {
                    lemma_sub_below(*self, i as int);
                }
                return Some(&self.subs[i]);
            }
            i += 1;
        }
        None
    }

    /// All substatements with this keyword.
    pub fn subs_of<'a>(&'a self, keyword: &str) -> (r: Vec<&'a Stmt>)
        ensures
            ref_views(r@) == all_subs(self@, keyword@),
            forall|i: int| 0 <= i < r@.len() ==> decreases_to!(*self => *(#[trigger] r@[i])),
    {
        broadcast use lemma_stmt_view;

        let mut out: Vec<&'a Stmt> = Vec::new();
        let mut i: usize = 0;
        assert(ref_views(out@) =~= Seq::empty());
        while i < self.subs.len()
            invariant
                i <= self.subs@.len(),
                self@.subs == stmt_views(self.subs@),
                ref_views(out@) == kinds(self@.subs, keyword@, i as int),
                forall|k: int|
                    0 <= k < out@.len() ==> decreases_to!(*self => *(#[trigger] out@[k])),
            decreases self.subs@.len() - i,
        {
            let ghost had = ref_views(out@);
            if self.subs[i].is(keyword) {
                proof {
                    lemma_sub_below(*self, i as int);
                }
                out.push(&self.subs[i]);
                assert(ref_views(out@) =~= had.push(self.subs@[i as int]@));
            }
            i += 1;
        }
        out
    }

    /// The argument, or an empty text if there is none.
    pub fn arg_str(&self) -> (r: &str)
        ensures
            r@ == arg_of(self@),
    {
        match &self.arg {
            Some(a) => a.as_str(),
            None => {
                proof {
                    reveal_strlit("");
                    assert(""@ =~= Seq::empty());
                }
                ""
            },
        }
    }
}

/// Why a text is no module, and where: lines count from 1, columns from 0.
#[derive(Debug)]
pub struct ParseError {
    pub message: String,
    pub line: usize,
    pub col: usize,
}

impl ParseError {
    /// The place and the message.
    pub fn to_string(&self) -> (r: String)
        ensures
            r@ == decimal_text(self.line as int) + ":"@ + decimal_text(self.col as int) + ": "@
                + self.message@,
    {
        let line = decimal(self.line as i128);
        let col = decimal(self.col as i128);
        cat5(line.as_str(), ":", col.as_str(), ": ", self.message.as_str())
    }
}

/// A message and the place in the text that it is about.
pub struct Fault {
    pub message: Seq<char>,
    pub at: int,
}

/// A text with every line ending made a line feed.
pub open spec fn normalized(s: Seq<char>) -> Seq<char>
    decreases s.len(),
{
    if s.len() == 0 {
        s
    } else if s[0] == '\r' {
        if s.len() > 1 && s[1] == '\n' {
            seq!['\n'] + normalized(s.subrange(2, s.len() as int))
        } else {
            seq!['\n'] + normalized(s.subrange(1, s.len() as int))
        }
    } else {
        seq![s[0]] + normalized(s.subrange(1, s.len() as int))
    }
}

/// The characters of a text with every line ending made a line feed.
fn normalize(s: &str) -> (r: Vec<char>)
    ensures
        r@ == normalized(s@),
{
    let chars = chars_of(s);
    let n: usize = chars.len();
    let mut out: Vec<char> = Vec::new();
    let mut i: usize = 0;
    assert(s@.subrange(0, n as int) =~= s@);
    assert(out@ + normalized(s@) =~= normalized(s@));
    while i < n
        invariant
            i <= n,
            n == chars@.len(),
            chars@ == s@,
            out@ + normalized(s@.subrange(i as int, n as int)) == normalized(s@),
        decreases n - i,
    {
        let ghost rest = s@.subrange(i as int, n as int);
        let ghost before = out@;
        proof {
            assert(rest.subrange(1, rest.len() as int) =~= s@.subrange(i + 1, n as int));
            if i + 1 < n {
                assert(rest.subrange(2, rest.len() as int) =~= s@.subrange(i + 2, n as int));
            }
        }
        let c = chars[i];
        if c == '\r' {
            out.push('\n');
            if i + 1 < n && chars[i + 1] == '\n' {
                assert(out@ + normalized(s@.subrange(i + 2, n as int)) =~= before + normalized(
                    rest,
                ));
                i += 2;
            } else {
                assert(out@ + normalized(s@.subrange(i + 1, n as int)) =~= before + normalized(
                    rest,
                ));
                i += 1;
            }
        } else {
            out.push(c);
            assert(out@ + normalized(s@.subrange(i + 1, n as int)) =~= before + normalized(rest));
            i += 1;
        }
    }
    assert(out@ + normalized(s@.subrange(n as int, n as int)) =~= out@);
    out
}

/// A number, kept within what can be counted.
pub open spec fn capped(n: int) -> int {
    if n > usize::MAX {
        usize::MAX as int
    } else {
        n
    }
}

/// The line that place `pos` is on.
pub open spec fn line_at(chars: Seq<char>, pos: int) -> int
    decreases pos,
{
    if pos <= 0 {
        1
    } else if chars[pos - 1] == '\n' {
        capped(line_at(chars, pos - 1) + 1)
    } else {
        line_at(chars, pos - 1)
    }
}

/// The column behind a character in column `col`: a tab goes to the next
/// multiple of eight.
pub open spec fn column_behind(col: int, c: char) -> int {
    if c == '\t' {
        capped((col / 8 + 1) * 8)
    } else {
        capped(col + 1)
    }
}

/// The column that place `pos` is in.
pub open spec fn column_at(chars: Seq<char>, pos: int) -> int
    decreases pos,
{
    if pos <= 0 || chars[pos - 1] == '\n' {
        0
    } else {
        column_behind(column_at(chars, pos - 1), chars[pos - 1])
    }
}

/// Whether `a` and `b` stand at `pos`.
pub open spec fn pair_at(chars: Seq<char>, pos: int, a: char, b: char) -> bool {
    pos + 1 < chars.len() && chars[pos] == a && chars[pos + 1] == b
}

/// The end of a block comment whose text begins at `pos`.
pub open spec fn comment_end(chars: Seq<char>, pos: int) -> int
    decreases chars.len() - pos,
{
    if pos >= chars.len() {
        chars.len() as int
    } else if pair_at(chars, pos, '*', '/') {
        pos + 2
    } else {
        comment_end(chars, pos + 1)
    }
}

/// The first place from `pos` on that is neither white space nor comment.
pub open spec fn trivia_end(chars: Seq<char>, pos: int) -> int
    decreases chars.len() - pos,
{
    if pos >= chars.len() {
        pos
    } else if is_space(chars[pos]) {
        trivia_end(chars, pos + 1)
    } else if pair_at(chars, pos, '/', '/') {
        let end = index_from(chars, '\n', pos);
        if pos < end <= chars.len() {
            trivia_end(chars, end)
        } else {
            pos
        }
    } else if pair_at(chars, pos, '/', '*') {
        let end = comment_end(chars, pos + 2);
        if pos < end <= chars.len() {
            trivia_end(chars, end)
        } else {
            pos
        }
    } else {
        pos
    }
}

/// Whether a character ends an unquoted word.
pub open spec fn ends_word(c: char) -> bool {
    is_space(c) || c == '{' || c == '}' || c == ';' || c == '"' || c == '\''
}

/// The end of the unquoted word at `pos`.
pub open spec fn word_end(chars: Seq<char>, pos: int) -> int
    decreases chars.len() - pos,
{
    if pos >= chars.len() || ends_word(chars[pos]) {
        pos
    } else {
        word_end(chars, pos + 1)
    }
}

/// A piece of text and the place behind it, or a fault.
pub type Piece = Result<(Seq<char>, int), Fault>;

/// What a backslash and `c` stand for in a double-quoted string.
pub open spec fn escape_of(c: char) -> Seq<char> {
    if c == 'n' {
        seq!['\n']
    } else if c == 't' {
        seq!['\t']
    } else if c == '"' {
        seq!['"']
    } else if c == '\\' {
        seq!['\\']
    } else {
        seq!['\\', c]
    }
}

/// The rest of a double-quoted string from `pos` on, behind `raw`.
pub open spec fn double_quoted(chars: Seq<char>, pos: int, raw: Seq<char>) -> Piece
    decreases chars.len() - pos,
{
    if pos >= chars.len() {
        Err(Fault { message: "unterminated double-quoted string"@, at: pos })
    } else if chars[pos] == '"' {
        Ok((raw, pos + 1))
    } else if chars[pos] == '\\' {
        if pos + 1 >= chars.len() {
            Err(Fault { message: "unterminated escape in double-quoted string"@, at: pos + 1 })
        } else {
            double_quoted(chars, pos + 2, raw + escape_of(chars[pos + 1]))
        }
    } else {
        double_quoted(chars, pos + 1, raw.push(chars[pos]))
    }
}

/// Where a line begins once up to `max` columns of indentation are taken off
/// it, from place `i` in column `col` on.
pub open spec fn indent_end(line: Seq<char>, i: int, col: int, max: int) -> int
    decreases line.len() - i,
{
    if i >= line.len() || col >= max || (line[i] != ' ' && line[i] != '\t') {
        i
    } else {
        indent_end(line, i + 1, column_behind(col, line[i]), max)
    }
}

/// A line without up to `max` columns of indentation.
pub open spec fn without_indent(line: Seq<char>, max: int) -> Seq<char> {
    line.subrange(indent_end(line, 0, 0, max), line.len() as int)
}

/// The lines but the first, each behind a line feed and without up to `max`
/// columns of indentation.
pub open spec fn further_lines(lines: Seq<Seq<char>>, n: int, max: int) -> Seq<char>
    decreases n,
{
    if n <= 1 {
        Seq::empty()
    } else {
        further_lines(lines, n - 1, max).push('\n') + without_indent(lines[n - 1], max)
    }
}

/// The content of a double-quoted string whose opening quote is in column
/// `quote_col`: further lines lose their indentation up to that column.
pub open spec fn dedented(raw: Seq<char>, quote_col: int) -> Seq<char> {
    let lines = split_text(raw, '\n');
    lines[0] + further_lines(lines, lines.len() as int, capped(quote_col + 1))
}

/// The string at `pos`: double-quoted, single-quoted or a word.
pub open spec fn string_at(chars: Seq<char>, pos: int) -> Piece {
    if pos >= chars.len() {
        Err(Fault { message: "expected a string, found end of input"@, at: pos })
    } else if chars[pos] == '"' {
        match double_quoted(chars, pos + 1, Seq::empty()) {
            Ok((raw, p)) => Ok((dedented(raw, column_at(chars, pos)), p)),
            Err(f) => Err(f),
        }
    } else if chars[pos] == '\'' {
        let end = index_from(chars, '\'', pos + 1);
        if end >= chars.len() {
            Err(Fault { message: "unterminated single-quoted string"@, at: chars.len() as int })
        } else {
            Ok((chars.subrange(pos + 1, end), end + 1))
        }
    } else {
        Ok((chars.subrange(pos, word_end(chars, pos)), word_end(chars, pos)))
    }
}

/// The strings that are joined to `text` by plus signs from `pos` on.
pub open spec fn joined_at(chars: Seq<char>, pos: int, text: Seq<char>) -> Piece
    decreases chars.len() - pos,
{
    let p = trivia_end(chars, pos);
    if p < pos || p >= chars.len() || chars[p] != '+' {
        Ok((text, p))
    } else {
        match string_at(chars, trivia_end(chars, p + 1)) {
            Err(f) => Err(f),
            Ok((more, q)) => if p < q <= chars.len() {
                joined_at(chars, q, text + more)
            } else {
                arbitrary()
            },
        }
    }
}

/// The argument at `pos`: strings joined by plus signs.
pub open spec fn argument_at(chars: Seq<char>, pos: int) -> Piece {
    match string_at(chars, pos) {
        Err(f) => Err(f),
        Ok((text, p)) => joined_at(chars, p, text),
    }
}

/// How a character, or the end of the text, is shown in a message.
pub uninterp spec fn shown_text(c: Option<char>) -> Seq<char>;

/// `format!("{:?}")` of an optional character, which depends on it alone.
#[verifier::external_body]
fn shown(c: Option<char>) -> (r: String)
    ensures
        r@ == shown_text(c),
{
    format!("{:?}", c)
}

/// The character at `pos`, if there is one.
pub open spec fn char_at(chars: Seq<char>, pos: int) -> Option<char> {
    if 0 <= pos < chars.len() {
        Some(chars[pos])
    } else {
        None
    }
}

/// The keyword that a word is, with its prefix.
pub open spec fn keyword_of(word: Seq<char>) -> (Option<Seq<char>>, Seq<char>) {
    let i = index_from(word, ':', 0);
    if i + 1 < word.len() {
        (Some(word.subrange(0, i)), word.subrange(i + 1, word.len() as int))
    } else {
        (None, word)
    }
}

/// The statement from `pos` on, and the place behind it.
pub open spec fn statement_at(chars: Seq<char>, pos: int) -> Result<(StmtView, int), Fault>
    decreases chars.len() - pos, 0int,
{
    let p = trivia_end(chars, pos);
    let q = word_end(chars, p);
    let r = trivia_end(chars, q);
    if q <= p || p < pos || r < q {
        Err(
            Fault {
                message: "expected a keyword, found "@ + shown_text(char_at(chars, p)),
                at: p,
            },
        )
    } else {
        let (prefix, keyword) = keyword_of(chars.subrange(p, q));
        if r >= chars.len() {
            Err(Fault { message: "unexpected end of input after keyword"@, at: r })
        } else if chars[r] == '{' || chars[r] == ';' {
            ending_at(chars, r, prefix, keyword, None)
        } else {
            match argument_at(chars, r) {
                Err(f) => Err(f),
                Ok((arg, s)) => if r <= trivia_end(chars, s) <= chars.len() {
                    ending_at(chars, trivia_end(chars, s), prefix, keyword, Some(arg))
                } else {
                    arbitrary()
                },
            }
        }
    }
}

/// The end of a statement at `pos`: a semicolon or a block.
pub open spec fn ending_at(
    chars: Seq<char>,
    pos: int,
    prefix: Option<Seq<char>>,
    keyword: Seq<char>,
    arg: Option<Seq<char>>,
) -> Result<(StmtView, int), Fault>
    decreases chars.len() - pos, 2int,
{
    if pos < chars.len() && chars[pos] == ';' {
        Ok((StmtView { prefix, keyword, arg, subs: Seq::empty() }, pos + 1))
    } else if pos < chars.len() && chars[pos] == '{' {
        match block_at(chars, pos + 1, Seq::empty()) {
            Err(f) => Err(f),
            Ok((subs, p)) => Ok((StmtView { prefix, keyword, arg, subs }, p)),
        }
    } else {
        Err(
            Fault {
                message: "expected ';' or '{', found "@ + shown_text(char_at(chars, pos)),
                at: if pos < chars.len() {
                    pos + 1
                } else {
                    pos
                },
            },
        )
    }
}

/// The rest of a block from `pos` on, behind the statements `subs`.
pub open spec fn block_at(chars: Seq<char>, pos: int, subs: Seq<StmtView>) -> Result<
    (Seq<StmtView>, int),
    Fault,
>
    decreases chars.len() - pos, 1int,
{
    let p = trivia_end(chars, pos);
    if p < pos {
        arbitrary()
    } else if p >= chars.len() {
        Err(Fault { message: "unterminated block, missing '}'"@, at: p })
    } else if chars[p] == '}' {
        Ok((subs, p + 1))
    } else {
        match statement_at(chars, p) {
            Err(f) => Err(f),
            Ok((s, q)) => if p < q <= chars.len() {
                block_at(chars, q, subs.push(s))
            } else {
                arbitrary()
            },
        }
    }
}

/// The error for a fault.
pub open spec fn error_for(e: ParseError, chars: Seq<char>, f: Fault) -> bool {
    &&& e.message@ == f.message
    &&& e.line == line_at(chars, f.at)
    &&& e.col == column_at(chars, f.at)
}

/// The module that a text is, or the fault in it.
pub open spec fn module_in(chars: Seq<char>) -> Result<StmtView, Fault> {
    match statement_at(chars, 0) {
        Err(f) => Err(f),
        Ok((s, p)) => {
            let end = trivia_end(chars, p);
            if end < chars.len() {
                Err(
                    Fault {
                        message: "unexpected content after the top-level statement"@,
                        at: end,
                    },
                )
            } else if s.keyword == "module"@ || s.keyword == "submodule"@ {
                Ok(s)
            } else {
                Err(
                    Fault {
                        message: "expected a 'module' or 'submodule' statement, found '"@
                            + s.keyword + "'"@,
                        at: 0,
                    },
                )
            }
        },
    }
}

proof fn lemma_comment_end(chars: Seq<char>, pos: int)
    requires
        0 <= pos <= chars.len(),
    ensures
        pos <= comment_end(chars, pos) <= chars.len(),
    decreases chars.len() - pos,
{
    if pos < chars.len() && !pair_at(chars, pos, '*', '/') {
        lemma_comment_end(chars, pos + 1);
    }
}

/// Trivia end at a place that is no earlier and within the text.
pub proof fn lemma_trivia_end(chars: Seq<char>, pos: int)
    requires
        0 <= pos <= chars.len(),
    ensures
        pos <= trivia_end(chars, pos) <= chars.len(),
    decreases chars.len() - pos,
{
    if pos < chars.len() {
        if is_space(chars[pos]) {
            lemma_trivia_end(chars, pos + 1);
        } else if pair_at(chars, pos, '/', '/') {
            lemma_index_from(chars, '\n', pos);
            let end = index_from(chars, '\n', pos);
            if end > pos {
                lemma_trivia_end(chars, end);
            }
        } else if pair_at(chars, pos, '/', '*') {
            lemma_comment_end(chars, pos + 2);
            lemma_trivia_end(chars, comment_end(chars, pos + 2));
        }
    }
}

proof fn lemma_word_end(chars: Seq<char>, pos: int)
    requires
        0 <= pos <= chars.len(),
    ensures
        pos <= word_end(chars, pos) <= chars.len(),
    decreases chars.len() - pos,
{
    if pos < chars.len() && !ends_word(chars[pos]) {
        lemma_word_end(chars, pos + 1);
    }
}

proof fn lemma_double_quoted(chars: Seq<char>, pos: int, raw: Seq<char>)
    requires
        0 <= pos <= chars.len(),
    ensures
        double_quoted(chars, pos, raw) matches Ok((_, p)) ==> pos < p <= chars.len(),
    decreases chars.len() - pos,
{
    if pos < chars.len() && chars[pos] != '"' {
        if chars[pos] == '\\' {
            if pos + 1 < chars.len() {
                lemma_double_quoted(chars, pos + 2, raw + escape_of(chars[pos + 1]));
            }
        } else {
            lemma_double_quoted(chars, pos + 1, raw.push(chars[pos]));
        }
    }
}

proof fn lemma_string_at(chars: Seq<char>, pos: int)
    requires
        0 <= pos <= chars.len(),
    ensures
        string_at(chars, pos) matches Ok((_, p)) ==> pos <= p <= chars.len(),
{
    lemma_word_end(chars, pos);
    if pos < chars.len() {
        lemma_double_quoted(chars, pos + 1, Seq::empty());
        lemma_index_from(chars, '\'', pos + 1);
    }
}

proof fn lemma_joined_at(chars: Seq<char>, pos: int, text: Seq<char>)
    requires
        0 <= pos <= chars.len(),
    ensures
        joined_at(chars, pos, text) matches Ok((_, p)) ==> pos <= p <= chars.len(),
    decreases chars.len() - pos,
{
    lemma_trivia_end(chars, pos);
    let p = trivia_end(chars, pos);
    if p < chars.len() && chars[p] == '+' {
        lemma_trivia_end(chars, p + 1);
        lemma_string_at(chars, trivia_end(chars, p + 1));
        match string_at(chars, trivia_end(chars, p + 1)) {
            Err(f) => {},
            Ok((more, q)) => {
                lemma_joined_at(chars, q, text + more);
            },
        }
    }
}

/// A statement ends behind its beginning and within the text.
pub proof fn lemma_statement_at(chars: Seq<char>, pos: int)
    requires
        0 <= pos <= chars.len(),
    ensures
        statement_at(chars, pos) matches Ok((_, p)) ==> pos < p <= chars.len(),
    decreases chars.len() - pos, 0int,
{
    let p = trivia_end(chars, pos);
    lemma_trivia_end(chars, pos);
    let q = word_end(chars, p);
    lemma_word_end(chars, p);
    let r = trivia_end(chars, q);
    lemma_trivia_end(chars, q);
    if q > p && r < chars.len() {
        let (prefix, keyword) = keyword_of(chars.subrange(p, q));
        if chars[r] == '{' || chars[r] == ';' {
            lemma_ending_at(chars, r, prefix, keyword, None);
        } else {
            lemma_string_at(chars, r);
            match string_at(chars, r) {
                Err(f) => {},
                Ok((text, s)) => {
                    lemma_joined_at(chars, s, text);
                    match joined_at(chars, s, text) {
                        Err(f) => {},
                        Ok((arg, t)) => {
                            lemma_trivia_end(chars, t);
                            lemma_ending_at(
                                chars,
                                trivia_end(chars, t),
                                prefix,
                                keyword,
                                Some(arg),
                            );
                        },
                    }
                },
            }
        }
    }
}

proof fn lemma_ending_at(
    chars: Seq<char>,
    pos: int,
    prefix: Option<Seq<char>>,
    keyword: Seq<char>,
    arg: Option<Seq<char>>,
)
    requires
        0 <= pos <= chars.len(),
    ensures
        ending_at(chars, pos, prefix, keyword, arg) matches Ok((_, p)) ==> pos < p <= chars.len(),
    decreases chars.len() - pos, 2int,
{
    if pos < chars.len() && chars[pos] == '{' {
        lemma_block_at(chars, pos + 1, Seq::empty());
    }
}

proof fn lemma_block_at(chars: Seq<char>, pos: int, subs: Seq<StmtView>)
    requires
        0 <= pos <= chars.len(),
    ensures
        block_at(chars, pos, subs) matches Ok((_, p)) ==> pos < p <= chars.len(),
    decreases chars.len() - pos, 1int,
{
    lemma_trivia_end(chars, pos);
    let p = trivia_end(chars, pos);
    if p < chars.len() && chars[p] != '}' {
        lemma_statement_at(chars, p);
        match statement_at(chars, p) {
            Err(f) => {},
            Ok((s, q)) => {
                lemma_block_at(chars, q, subs.push(s));
            },
        }
    }
}

/// A place in the characters of a text, with its line and column.
struct Lexer {
    chars: Vec<char>,
    pos: usize,
    line: usize,
    col: usize,
}

impl Lexer {
    /// What holds of a place.
    spec fn ok(&self) -> bool {
        &&& self.pos <= self.chars@.len()
        &&& self.line == line_at(self.chars@, self.pos as int)
        &&& self.col == column_at(self.chars@, self.pos as int)
    }

    /// The beginning of a text, with its line endings made line feeds.
    fn new(src: &str) -> (r: Self)
        ensures
            r.ok(),
            r.chars@ == normalized(src@),
            r.pos == 0,
    {
        Lexer { chars: normalize(src), pos: 0, line: 1, col: 0 }
    }

    /// The character here.
    fn peek(&self) -> (r: Option<char>)
        requires
            self.ok(),
        ensures
            r == char_at(self.chars@, self.pos as int),
    {
        if self.pos < self.chars.len() {
            Some(self.chars[self.pos])
        } else {
            None
        }
    }

    /// Whether `a` and `b` stand here.
    fn at_pair(&self, a: char, b: char) -> (r: bool)
        requires
            self.ok(),
        ensures
            r == pair_at(self.chars@, self.pos as int, a, b),
    {
        let n: usize = self.chars.len();
        self.pos < n && self.pos + 1 < n && self.chars[self.pos] == a && self.chars[self.pos + 1]
            == b
    }

    /// Moves behind the character here.
    fn bump(&mut self) -> (r: Option<char>)
        requires
            old(self).ok(),
        ensures
            final(self).ok(),
            final(self).chars@ == old(self).chars@,
            r == char_at(old(self).chars@, old(self).pos as int),
            final(self).pos == (if old(self).pos < old(self).chars@.len() {
                old(self).pos + 1
            } else {
                old(self).pos as int
            }),
    {
        if self.pos >= self.chars.len() {
            return None;
        }
        let c = self.chars[self.pos];
        self.pos += 1;
        if c == '\n' {
            self.line = self.line.saturating_add(1);
            self.col = 0;
        } else if c == '\t' {
            self.col = next_tab(self.col);
        } else {
            self.col = self.col.saturating_add(1);
        }
        Some(c)
    }

    /// An error here.
    fn err(&self, message: String) -> (r: ParseError)
        requires
            self.ok(),
        ensures
            error_for(r, self.chars@, Fault { message: message@, at: self.pos as int }),
    {
        ParseError { message, line: self.line, col: self.col }
    }

    /// Moves to the place `to`.
    fn advance(&mut self, to: usize)
        requires
            old(self).ok(),
            old(self).pos <= to <= old(self).chars@.len(),
        ensures
            final(self).ok(),
            final(self).chars@ == old(self).chars@,
            final(self).pos == to,
    {
        while self.pos < to
            invariant
                self.ok(),
                self.pos <= to <= self.chars@.len(),
                self.chars@ == old(self).chars@,
            decreases to - self.pos,
        {
            self.bump();
        }
    }

    /// Moves over white space and comments.
    fn skip_trivia(&mut self)
        requires
            old(self).ok(),
        ensures
            final(self).ok(),
            final(self).chars@ == old(self).chars@,
            final(self).pos == trivia_end(old(self).chars@, old(self).pos as int),
            old(self).pos <= final(self).pos,
    {
        let ghost start = self.pos as int;
        loop
            invariant
                self.ok(),
                self.chars@ == old(self).chars@,
                start == old(self).pos,
                start <= self.pos,
                trivia_end(self.chars@, start) == trivia_end(self.chars@, self.pos as int),
            decreases self.chars@.len() - self.pos,
        {
            let c = match self.peek() {
                Some(c) => c,
                None => {
                    return;
                },
            };
            if is_whitespace(c) {
                self.bump();
            } else if self.at_pair('/', '/') {
                let end = index_of(self.chars.as_slice(), '\n', self.pos);
                self.advance(end);
            } else if self.at_pair('/', '*') {
                let ghost from = self.pos as int;
                self.bump();
                self.bump();
                while self.pos < self.chars.len() && !self.at_pair('*', '/')
                    invariant
                        self.ok(),
                        self.chars@ == old(self).chars@,
                        from + 2 <= self.pos,
                        comment_end(self.chars@, from + 2) == comment_end(
                            self.chars@,
                            self.pos as int,
                        ),
                    decreases self.chars@.len() - self.pos,
                {
                    self.bump();
                }
                if self.pos < self.chars.len() {
                    self.bump();
                    self.bump();
                }
            } else {
                return;
            }
        }
    }

    /// Reads the unquoted word here.
    fn read_bare(&mut self) -> (r: String)
        requires
            old(self).ok(),
        ensures
            final(self).ok(),
            final(self).chars@ == old(self).chars@,
            final(self).pos == word_end(old(self).chars@, old(self).pos as int),
            old(self).pos <= final(self).pos,
            r@ == old(self).chars@.subrange(old(self).pos as int, final(self).pos as int),
    {
        let start: usize = self.pos;
        while self.pos < self.chars.len()
            invariant
                self.ok(),
                self.chars@ == old(self).chars@,
                start == old(self).pos,
                start <= self.pos,
                word_end(self.chars@, start as int) == word_end(self.chars@, self.pos as int),
            ensures
                self.pos == word_end(self.chars@, start as int),
            decreases self.chars@.len() - self.pos,
        {
            let c = self.chars[self.pos];
            if is_whitespace(c) || c == '{' || c == '}' || c == ';' || c == '"' || c == '\'' {
                break;
            }
            self.bump();
        }
        text_between(self.chars.as_slice(), start, self.pos)
    }

    /// Reads the double-quoted string here.
    fn read_double_quoted(&mut self) -> (r: Result<String, ParseError>)
        requires
            old(self).ok(),
            char_at(old(self).chars@, old(self).pos as int) == Some('"'),
        ensures
            final(self).ok(),
            final(self).chars@ == old(self).chars@,
            old(self).pos <= final(self).pos,
            match r {
                Ok(s) => string_at(old(self).chars@, old(self).pos as int) == Ok::<
                    (Seq<char>, int),
                    Fault,
                >((s@, final(self).pos as int)),
                Err(e) => string_at(old(self).chars@, old(self).pos as int) matches Err(f)
                    && error_for(e, old(self).chars@, f),
            },
    {
        let quote_col: usize = self.col;
        let ghost start = self.pos as int;
        self.bump();
        let mut raw: Vec<char> = Vec::new();
        assert(raw@ =~= Seq::empty());
        loop
            invariant
                self.ok(),
                self.chars@ == old(self).chars@,
                start == old(self).pos,
                start < self.pos,
                start < self.chars@.len(),
                self.chars@[start] == '"',
                quote_col == column_at(self.chars@, start),
                double_quoted(self.chars@, start + 1, Seq::empty()) == double_quoted(
                    self.chars@,
                    self.pos as int,
                    raw@,
                ),
            decreases self.chars@.len() - self.pos,
        {
            let ghost had = raw@;
            match self.bump() {
                None => {
                    return Err(self.err(owned("unterminated double-quoted string")));
                },
                Some(c) => {
                    if c == '"' {
                        return Ok(strip_indentation(raw.as_slice(), quote_col));
                    } else if c == '\\' {
                        match self.bump() {
                            None => {
                                return Err(
                                    self.err(owned("unterminated escape in double-quoted string")),
                                );
                            },
                            Some(d) => {
                                if d == 'n' {
                                    raw.push('\n');
                                } else if d == 't' {
                                    raw.push('\t');
                                } else if d == '"' {
                                    raw.push('"');
                                } else if d == '\\' {
                                    raw.push('\\');
                                } else {
                                    raw.push('\\');
                                    raw.push(d);
                                }
                                assert(raw@ =~= had + escape_of(d));
                            },
                        }
                    } else {
                        raw.push(c);
                    }
                },
            }
        }
    }

    /// Reads the single-quoted string here.
    fn read_single_quoted(&mut self) -> (r: Result<String, ParseError>)
        requires
            old(self).ok(),
            char_at(old(self).chars@, old(self).pos as int) == Some('\''),
        ensures
            final(self).ok(),
            final(self).chars@ == old(self).chars@,
            old(self).pos <= final(self).pos,
            match r {
                Ok(s) => string_at(old(self).chars@, old(self).pos as int) == Ok::<
                    (Seq<char>, int),
                    Fault,
                >((s@, final(self).pos as int)),
                Err(e) => string_at(old(self).chars@, old(self).pos as int) matches Err(f)
                    && error_for(e, old(self).chars@, f),
            },
    {
        self.bump();
        let from: usize = self.pos;
        let end = index_of(self.chars.as_slice(), '\'', from);
        self.advance(end);
        if end >= self.chars.len() {
            return Err(self.err(owned("unterminated single-quoted string")));
        }
        let raw = text_between(self.chars.as_slice(), from, end);
        self.bump();
        Ok(raw)
    }

    /// Reads the string here.
    fn read_string_component(&mut self) -> (r: Result<String, ParseError>)
        requires
            old(self).ok(),
        ensures
            final(self).ok(),
            final(self).chars@ == old(self).chars@,
            old(self).pos <= final(self).pos,
            match r {
                Ok(s) => string_at(old(self).chars@, old(self).pos as int) == Ok::<
                    (Seq<char>, int),
                    Fault,
                >((s@, final(self).pos as int)),
                Err(e) => string_at(old(self).chars@, old(self).pos as int) matches Err(f)
                    && error_for(e, old(self).chars@, f),
            },
    {
        match self.peek() {
            None => Err(self.err(owned("expected a string, found end of input"))),
            Some(c) => {
                if c == '"' {
                    self.read_double_quoted()
                } else if c == '\'' {
                    self.read_single_quoted()
                } else {
                    Ok(self.read_bare())
                }
            },
        }
    }

    /// Reads the argument here: strings joined by plus signs.
    fn read_argument(&mut self) -> (r: Result<String, ParseError>)
        requires
            old(self).ok(),
        ensures
            final(self).ok(),
            final(self).chars@ == old(self).chars@,
            old(self).pos <= final(self).pos,
            match r {
                Ok(s) => argument_at(old(self).chars@, old(self).pos as int) == Ok::<
                    (Seq<char>, int),
                    Fault,
                >((s@, final(self).pos as int)),
                Err(e) => argument_at(old(self).chars@, old(self).pos as int) matches Err(f)
                    && error_for(e, old(self).chars@, f),
            },
    {
        let ghost start = self.pos as int;
        let mut result = match self.read_string_component() {
            Ok(s) => s,
            Err(e) => {
                return Err(e);
            },
        };
        loop
            invariant
                self.ok(),
                self.chars@ == old(self).chars@,
                start == old(self).pos,
                start <= self.pos,
                argument_at(self.chars@, start) == joined_at(
                    self.chars@,
                    self.pos as int,
                    result@,
                ),
            decreases self.chars@.len() - self.pos,
        {
            self.skip_trivia();
            if self.peek() == Some('+') {
                self.bump();
                self.skip_trivia();
                match self.read_string_component() {
                    Ok(more) => {
                        result.append(more.as_str());
                    },
                    Err(e) => {
                        return Err(e);
                    },
                }
            } else {
                return Ok(result);
            }
        }
    }

    /// Reads the keyword here.
    fn read_keyword(&mut self) -> (r: Result<(Option<String>, String), ParseError>)
        requires
            old(self).ok(),
        ensures
            final(self).ok(),
            final(self).chars@ == old(self).chars@,
            old(self).pos <= final(self).pos,
            ({
                let chars = old(self).chars@;
                let p = old(self).pos as int;
                let q = word_end(chars, p);
                match r {
                    Ok((prefix, keyword)) => {
                        &&& q > p
                        &&& final(self).pos == q
                        &&& (opt_text(prefix), keyword@) == keyword_of(chars.subrange(p, q))
                    },
                    Err(e) => {
                        &&& q == p
                        &&& error_for(
                            e,
                            chars,
                            Fault {
                                message: "expected a keyword, found "@ + shown_text(
                                    char_at(chars, p),
                                ),
                                at: p,
                            },
                        )
                    },
                }
            }),
    {
        let from: usize = self.pos;
        let word = self.read_bare();
        if self.pos == from {
            let found = shown(self.peek());
            return Err(self.err(cat("expected a keyword, found ", found.as_str())));
        }
        let chars = chars_of(word.as_str());
        let n: usize = chars.len();
        let i = index_of(chars.as_slice(), ':', 0);
        if i < n && i + 1 < n {
            let prefix = text_between(chars.as_slice(), 0, i);
            let local = text_between(chars.as_slice(), i + 1, n);
            Ok((Some(prefix), local))
        } else {
            Ok((None, word))
        }
    }

    /// Reads the statement here.
    fn parse_statement(&mut self) -> (r: Result<Stmt, ParseError>)
        requires
            old(self).ok(),
        ensures
            final(self).ok(),
            final(self).chars@ == old(self).chars@,
            match r {
                Ok(s) => statement_at(old(self).chars@, old(self).pos as int) == Ok::<
                    (StmtView, int),
                    Fault,
                >((s@, final(self).pos as int)) && old(self).pos < final(self).pos,
                Err(e) => statement_at(old(self).chars@, old(self).pos as int) matches Err(f)
                    && error_for(e, old(self).chars@, f),
            },
        decreases old(self).chars@.len() - old(self).pos,
    {
        broadcast use lemma_stmt_view;

        let ghost chars = self.chars@;
        let ghost start = self.pos as int;
        proof {
            lemma_statement_at(chars, start);
        }
        self.skip_trivia();
        let (prefix, keyword) = match self.read_keyword() {
            Ok(k) => k,
            Err(e) => {
                return Err(e);
            },
        };
        self.skip_trivia();
        let arg = match self.peek() {
            None => {
                return Err(self.err(owned("unexpected end of input after keyword")));
            },
            Some(c) => {
                if c == '{' || c == ';' {
                    None
                } else {
                    match self.read_argument() {
                        Ok(a) => {
                            self.skip_trivia();
                            Some(a)
                        },
                        Err(e) => {
                            return Err(e);
                        },
                    }
                }
            },
        };
        let ghost at = self.pos as int;
        assert(statement_at(chars, start) == ending_at(
            chars,
            at,
            opt_text(prefix),
            keyword@,
            opt_text(arg),
        ));
        let mut subs: Vec<Stmt> = Vec::new();
        assert(stmt_views(subs@) =~= Seq::empty());
        let next = self.bump();
        if next == Some(';') {
            let s = Stmt { prefix, keyword, arg, subs };
            assert(s@ =~= StmtView {
                prefix: opt_text(prefix),
                keyword: keyword@,
                arg: opt_text(arg),
                subs: Seq::empty(),
            });
            return Ok(s);
        }
        if next != Some('{') {
            let found = shown(next);
            return Err(self.err(cat("expected ';' or '{', found ", found.as_str())));
        }
        loop
            invariant
                self.ok(),
                self.chars@ == chars,
                chars == old(self).chars@,
                start == old(self).pos,
                start <= at < self.pos,
                at < chars.len(),
                chars[at] == '{',
                statement_at(chars, start) == ending_at(
                    chars,
                    at,
                    opt_text(prefix),
                    keyword@,
                    opt_text(arg),
                ),
                block_at(chars, at + 1, Seq::empty()) == block_at(
                    chars,
                    self.pos as int,
                    stmt_views(subs@),
                ),
            decreases chars.len() - self.pos,
        {
            self.skip_trivia();
            let ghost here = self.pos as int;
            match self.peek() {
                None => {
                    return Err(self.err(owned("unterminated block, missing '}'")));
                },
                Some(c) => {
                    if c == '}' {
                        self.bump();
                        let s = Stmt { prefix, keyword, arg, subs };
                        proof {
                            lemma_stmt_view(s);
                        }
                        assert(s@ =~= StmtView {
                            prefix: opt_text(prefix),
                            keyword: keyword@,
                            arg: opt_text(arg),
                            subs: stmt_views(subs@),
                        });
                        assert(ending_at(chars, at, opt_text(prefix), keyword@, opt_text(arg)) == Ok::<
                            (StmtView, int),
                            Fault,
                        >((s@, self.pos as int)));
                        return Ok(s);
                    }
                },
            }
            let ghost had = stmt_views(subs@);
            match self.parse_statement() {
                Ok(s) => {
                    subs.push(s);
                    assert(stmt_views(subs@) =~= had.push(s@));
                },
                Err(e) => {
                    return Err(e);
                },
            }
        }
    }
}

/// The next multiple of eight behind a column.
fn next_tab(col: usize) -> (r: usize)
    ensures
        r == capped((col as int / 8 + 1) * 8),
{
    let next: u128 = (col as u128 / 8 + 1) * 8;
    if next > usize::MAX as u128 {
        usize::MAX
    } else {
        next as usize
    }
}

/// The content of a double-quoted string: further lines lose their
/// indentation up to the column of the opening quote.
fn strip_indentation(raw: &[char], quote_col: usize) -> (r: String)
    ensures
        r@ == dedented(raw@, quote_col as int),
{
    let whole = text_of_chars(raw);
    let lines = split(whole.as_str(), '\n');
    let ghost views = split_text(raw@, '\n');
    let max: usize = quote_col.saturating_add(1);
    assert(lines@.len() == texts(lines@).len());
    let mut out = lines[0].clone();
    let ghost first = lines@[0]@;
    assert(first == texts(lines@)[0]);
    let mut i: usize = 1;
    assert(out@ =~= first + further_lines(views, 1, max as int));
    while i < lines.len()
        invariant
            1 <= i <= lines@.len(),
            views == texts(lines@),
            out@ == first + further_lines(views, i as int, max as int),
        decreases lines@.len() - i,
    {
        let ghost before = out@;
        push_char(&mut out, '\n');
        let kept = strip_leading_ws(lines[i].as_str(), max);
        out.append(kept.as_str());
        assert(views[i as int] == lines@[i as int]@);
        assert(out@ =~= first + further_lines(views, i + 1, max as int));
        i += 1;
    }
    out
}

/// A line without up to `max_col` columns of indentation.
fn strip_leading_ws(line: &str, max_col: usize) -> (r: String)
    ensures
        r@ == without_indent(line@, max_col as int),
{
    let chars = chars_of(line);
    let mut col: usize = 0;
    let mut i: usize = 0;
    while i < chars.len() && col < max_col && (chars[i] == ' ' || chars[i] == '\t')
        invariant
            i <= chars@.len(),
            chars@ == line@,
            indent_end(line@, 0, 0, max_col as int) == indent_end(
                line@,
                i as int,
                col as int,
                max_col as int,
            ),
        decreases chars@.len() - i,
    {
        if chars[i] == '\t' {
            col = next_tab(col);
        } else {
            col = col.saturating_add(1);
        }
        i += 1;
    }
    text_between(chars.as_slice(), i, chars.len())
}

/// Parses the text of a module or submodule.
pub fn parse_module(src: &str) -> (r: Result<Stmt, ParseError>)
    ensures
        match r {
            Ok(s) => module_in(normalized(src@)) == Ok::<StmtView, Fault>(s@),
            Err(e) => module_in(normalized(src@)) matches Err(f) && error_for(
                e,
                normalized(src@),
                f,
            ),
        },
{
    let mut lexer = Lexer::new(src);
    let stmt = match lexer.parse_statement() {
        Ok(s) => s,
        Err(e) => {
            return Err(e);
        },
    };
    lexer.skip_trivia();
    if lexer.pos < lexer.chars.len() {
        return Err(lexer.err(owned("unexpected content after the top-level statement")));
    }
    if same(stmt.keyword.as_str(), "module") || same(stmt.keyword.as_str(), "submodule") {
        return Ok(stmt);
    }
    Err(
        ParseError {
            message: cat3(
                "expected a 'module' or 'submodule' statement, found '",
                stmt.keyword.as_str(),
                "'",
            ),
            line: 1,
            col: 0,
        },
    )
}

} // verus!
