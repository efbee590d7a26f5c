//! The formats of input and output.
use vstd::prelude::*;

use crate::json::{
    as_value, lemma_json_view, parse_json, parse_yaml, parsed_json, parsed_yaml, rendered_json,
    rendered_yaml, rewrite, write_json, write_yaml, Json, Tree,
};
use crate::text::{cat, chars_of, ends_with, has_end, same, text_between};

verus! {

broadcast use lemma_json_view;

/// A format for data as text.
#[derive(Debug, Clone, Copy, PartialEq, Eq, Structural)]
pub enum Format {
    Json,
    Yaml,
}

/// The format that an option names.
pub open spec fn flagged(flag: Option<Seq<char>>) -> Option<Format> {
    if flag == Some("json"@) {
        Some(Format::Json)
    } else if flag == Some("yaml"@) {
        Some(Format::Yaml)
    } else {
        None
    }
}

/// The format that the end of a file's name tells.
pub open spec fn format_of_path(path: Seq<char>) -> Option<Format> {
    if has_end(path, "json"@) {
        Some(Format::Json)
    } else if has_end(path, "yaml"@) {
        Some(Format::Yaml)
    } else {
        None
    }
}

/// The format of a file, or of standard input or output: the option goes
/// first, then the name of the file, then YAML.
pub open spec fn chosen(file: Option<Seq<char>>, flag: Option<Seq<char>>) -> Format {
    match flagged(flag) {
        Some(f) => f,
        None => match file {
            Some(path) => match format_of_path(path) {
                Some(f) => f,
                None => Format::Yaml,
            },
            None => Format::Yaml,
        },
    }
}

/// The characters of an optional text.
pub open spec fn opt_str(s: Option<&str>) -> Option<Seq<char>> {
    match s {
        Some(s) => Some(s@),
        None => None,
    }
}

impl Format {
    /// The format that an option names.
    pub fn from_flag(flag: Option<&str>) -> (r: Option<Format>)
        ensures
            r == flagged(opt_str(flag)),
    {
        match flag {
            Some(s) => if same(s, "json") {
                Some(Format::Json)
            } else if same(s, "yaml") {
                Some(Format::Yaml)
            } else {
                None
            },
            None => None,
        }
    }

    /// The format that the end of a file's name tells.
    pub fn from_extension(path: &str) -> (r: Option<Format>)
        ensures
            r == format_of_path(path@),
    {
        if ends_with(path, "json") {
            Some(Format::Json)
        } else if ends_with(path, "yaml") {
            Some(Format::Yaml)
        } else {
            None
        }
    }

    /// The format of a file, or of standard input or output.
    pub fn pick(file: Option<&str>, flag: Option<&str>) -> (r: Format)
        ensures
            r == chosen(opt_str(file), opt_str(flag)),
    {
        match Format::from_flag(flag) {
            Some(f) => f,
            None => match file {
                Some(path) => match Format::from_extension(path) {
                    Some(f) => f,
                    None => Format::Yaml,
                },
                None => Format::Yaml,
            },
        }
    }
}

/// The value that a text stands for in a format.
pub open spec fn parsed_as(text: Seq<char>, format: Format) -> Result<Tree, Seq<char>> {
    match format {
        Format::Json => match parsed_json(text) {
            Ok(v) => Ok(v),
            Err(e) => Err("JSON parse error: "@ + e),
        },
        Format::Yaml => match parsed_yaml(text) {
            Ok(v) => Ok(v),
            Err(e) => Err("YAML parse error: "@ + e),
        },
    }
}

/// Reads text in a format.
pub fn parse(text: &str, format: Format) -> (r: Result<Json, String>)
    ensures
        match r {
            Ok(v) => parsed_as(text@, format) == Ok::<Tree, Seq<char>>(v@),
            Err(e) => parsed_as(text@, format) == Err::<Tree, Seq<char>>(e@),
        },
{
    match format {
        Format::Json => match parse_json(text) {
            Ok(v) => Ok(v),
            Err(e) => Err(cat("JSON parse error: ", e.as_str())),
        },
        Format::Yaml => match parse_yaml(text) {
            Ok(v) => Ok(v),
            Err(e) => Err(cat("YAML parse error: ", e.as_str())),
        },
    }
}

/// The text for a value in a format.
pub open spec fn rendered_as(v: Tree, format: Format) -> Result<Seq<char>, Seq<char>> {
    match format {
        Format::Json => match rendered_json(v) {
            Ok(s) => Ok(s),
            Err(e) => Err("JSON encode error: "@ + e),
        },
        Format::Yaml => match rendered_yaml(v) {
            Ok(s) => Ok(s),
            Err(e) => Err("YAML encode error: "@ + e),
        },
    }
}

/// The outcome of writing in a format.
fn outcome(r: Result<String, String>, format: Format) -> (out: Result<String, String>)
    ensures
        match out {
            Ok(s) => r == Ok::<String, String>(s),
            Err(e) => r matches Err(inner) && e@ == (match format {
                Format::Json => "JSON encode error: "@,
                Format::Yaml => "YAML encode error: "@,
            }) + inner@,
        },
{
    match r {
        Ok(s) => Ok(s),
        Err(e) => match format {
            Format::Json => Err(cat("JSON encode error: ", e.as_str())),
            Format::Yaml => Err(cat("YAML encode error: ", e.as_str())),
        },
    }
}

/// Writes a value in a format.
pub fn render(value: &Json, format: Format) -> (r: Result<String, String>)
    ensures
        match r {
            Ok(s) => rendered_as(as_value(value@), format) == Ok::<Seq<char>, Seq<char>>(s@),
            Err(e) => rendered_as(as_value(value@), format) == Err::<Seq<char>, Seq<char>>(e@),
        },
{
    let made = match format {
        Format::Json => write_json(value),
        Format::Yaml => write_yaml(value),
    };
    outcome(made, format)
}

/// What becomes of text in a format that is written in another.
pub open spec fn reformatted(text: Seq<char>, from: Format, to: Format) -> Result<
    Seq<char>,
    Seq<char>,
> {
    match parsed_as(text, from) {
        Err(e) => Err(e),
        Ok(v) => rendered_as(v, to),
    }
}

/// Writes text in a format in another, without loss.
pub fn reformat(text: &str, from: Format, to: Format) -> (r: Result<String, String>)
    ensures
        match r {
            Ok(s) => reformatted(text@, from, to) == Ok::<Seq<char>, Seq<char>>(s@),
            Err(e) => reformatted(text@, from, to) == Err::<Seq<char>, Seq<char>>(e@),
        },
{
    let from_yaml: bool = match from {
        Format::Json => false,
        Format::Yaml => true,
    };
    let to_yaml: bool = match to {
        Format::Json => false,
        Format::Yaml => true,
    };
    match rewrite(text, from_yaml, to_yaml) {
        Ok(made) => outcome(made, to),
        Err(e) => match from {
            Format::Json => Err(cat("JSON parse error: ", e.as_str())),
            Format::Yaml => Err(cat("YAML parse error: ", e.as_str())),
        },
    }
}

/// The place behind the last character before `n` that is no line feed.
pub open spec fn lines_end(s: Seq<char>, n: int) -> int
    decreases n,
{
    if n <= 0 || s[n - 1] != '\n' {
        n
    } else {
        lines_end(s, n - 1)
    }
}

/// A text with exactly one line feed at its end.
pub fn one_line_end(text: &str) -> (r: String)
    ensures
        r@ == text@.subrange(0, lines_end(text@, text@.len() as int)) + "\n"@,
{
    let chars = chars_of(text);
    let mut n: usize = chars.len();
    while n > 0 && chars[n - 1] == '\n'
        invariant
            n <= chars@.len(),
            chars@ == text@,
            lines_end(text@, text@.len() as int) == lines_end(text@, n as int),
        decreases n,
    {
        n -= 1;
    }
    let body = text_between(chars.as_slice(), 0, n);
    cat(body.as_str(), "\n")
}

/// Whether there is anything to write: null and what is empty is nothing.
pub open spec fn worth_writing(v: Tree) -> bool {
    match v {
        Tree::Null => false,
        Tree::Array(a) => a.len() > 0,
        Tree::Object(m) => m.len() > 0,
        _ => true,
    }
}

/// Whether there is anything to write.
pub fn is_nonempty(value: &Json) -> (r: bool)
    ensures
        r == worth_writing(value@),
{
    match value {
        Json::Null => false,
        Json::Array(a) => a.len() > 0,
        Json::Object(m) => m.len() > 0,
        _ => true,
    }
}

} // verus!
