//! The parser of one line of a properties file: a comment or a blank line, to
//! be handed on as it is, or a key and its value.

use crate::model::{InternalError, InternalErrorView, Property, PropertyView};
use crate::text::{
    all_whitespace, chars_of, end_without_trailing, find_char, first_index_of, is_whitespace,
    lemma_first_index_of, lemma_without_trailing, text_of_range, without_trailing,
};
use regex::Regex;
use vstd::prelude::*;

verus! {

/// What a [`Line`] is.
pub enum LineView {
    Ignorable(Seq<char>),
    Prop(PropertyView),
}

/// One line of a properties file.
#[derive(Debug, PartialEq)]
pub enum Line {
    /// A comment or a blank line, without the line feeds that ended it.
    Ignorable(String),
    /// A key and its value.
    Prop(Property),
}

impl View for Line {
    type V = LineView;

    open spec fn view(&self) -> LineView {
        match self {
            Line::Ignorable(text) => LineView::Ignorable(text@),
            Line::Prop(property) => LineView::Prop(property@),
        }
    }
}

/// The regular expression that a blank line matches: from the start of the
/// line to its end, whitespace and then line feeds.
pub open spec fn blank_line_pattern() -> Seq<char> {
    "^\\s*\\n*$"@
}

/// Whether a line is handed on as it is: a comment, which starts with `#`, or
/// a line of nothing but whitespace.
pub open spec fn is_ignorable(line: Seq<char>) -> bool {
    (line.len() > 0 && line[0] == '#') || all_whitespace(line)
}

/// The message for a line that is no property for want of a `=`.
pub open spec fn missing_equals() -> Seq<char> {
    "missing '='"@
}

/// The message for a key that holds a space.
pub open spec fn key_contains_spaces(key: Seq<char>) -> Seq<char> {
    "key '"@ + key + "' contains spaces"@
}

/// What a line of a properties file is.
///
/// An ignorable line keeps all its characters but the line feeds that end it.
/// Any other line is cut at its first `=`: before it the key, which may hold
/// no space, behind it the value, without the line feeds that end it.
pub open spec fn parsed_line(line: Seq<char>, line_num: i32) -> Result<
    LineView,
    InternalErrorView,
> {
    if is_ignorable(line) {
        Ok(LineView::Ignorable(without_trailing(line, '\n')))
    } else if !line.contains('=') {
        Err(InternalErrorView::ParseError { line_num, message: missing_equals() })
    } else {
        let key = line.take(first_index_of(line, '='));
        if key.contains(' ') {
            Err(InternalErrorView::ParseError { line_num, message: key_contains_spaces(key) })
        } else {
            Ok(
                LineView::Prop(
                    PropertyView {
                        key,
                        value: without_trailing(line.skip(first_index_of(line, '=') + 1), '\n'),
                    },
                ),
            )
        }
    }
}

/// A comment or a blank line comes back as an ignorable line: a prefix of the
/// line that ends in no line feed, and all that is missing is line feeds.
pub proof fn lemma_ignorable_line(line: Seq<char>, line_num: i32)
    requires
        is_ignorable(line),
    ensures
        parsed_line(line, line_num) == Ok::<LineView, InternalErrorView>(
            LineView::Ignorable(without_trailing(line, '\n')),
        ),
        without_trailing(line, '\n') == line.take(without_trailing(line, '\n').len() as int),
        without_trailing(line, '\n').len() > 0 ==> without_trailing(line, '\n').last() != '\n',
        forall|i: int| without_trailing(line, '\n').len() <= i < line.len() ==> line[i] == '\n',
{
    lemma_without_trailing(line, '\n');
}

/// A key without `=` and without a space, then `=`, then a value: the line
/// comes back as that key with that value, the value without the line feeds
/// that end it. The key must not start with `#`, which would make the line a
/// comment.
pub proof fn lemma_property_line(key: Seq<char>, value: Seq<char>, line_num: i32)
    requires
        !key.contains('='),
        !key.contains(' '),
        key.len() > 0 ==> key[0] != '#',
    ensures
        parsed_line(key + seq!['='] + value, line_num) == Ok::<LineView, InternalErrorView>(
            LineView::Prop(PropertyView { key, value: without_trailing(value, '\n') }),
        ),
{
    let line = key + seq!['='] + value;
    lemma_first_index_of(line, '=');
    assert(line[key.len() as int] == '=');
    assert(!is_whitespace('='));
    assert(!all_whitespace(line));
    if key.len() > 0 {
        assert(line[0] == key[0]);
    }
    assert(line.contains('='));
    let at = first_index_of(line, '=');
    if at < key.len() {
        assert(key[at] == line[at]);
        assert(key.contains('='));
    }
    assert(at == key.len());
    assert(line.take(at) =~= key);
    assert(line.skip(at + 1) =~= value);
}

/// A line without `=` that is neither a comment nor blank is refused for the
/// missing `=`.
pub proof fn lemma_line_without_equals(line: Seq<char>, line_num: i32)
    requires
        !line.contains('='),
        !is_ignorable(line),
    ensures
        parsed_line(line, line_num) == Err::<LineView, InternalErrorView>(
            InternalErrorView::ParseError { line_num, message: missing_equals() },
        ),
{
}

/// Compiles `pattern` with `regex::Regex::new` and asks `regex::Regex::is_match`
/// whether `line` holds a match.
///
/// Trusted, of [`blank_line_pattern`] alone: it compiles, and as `^` and `$`
/// anchor it at the two ends of the line, with `\s*` and `\n*` between, a
/// line holds a match exactly where each of its characters is one that `\s`
/// stands for. To that crate `\s` is the Unicode property `White_Space`, and
/// [`is_whitespace`] lists the characters of its table.
#[verifier::external_body]
fn matches_pattern(pattern: &str, line: &str) -> (b: bool)
    requires
        pattern@ == blank_line_pattern(),
    ensures
        b == all_whitespace(line@),
{
    Regex::new(pattern).unwrap().is_match(line)
}

/// Reads one line of a properties file; `line_num` is what an error reports.
pub fn parse_line(line: &str, line_num: i32) -> (r: Result<Line, InternalError>)
    ensures
        match r {
            Ok(parsed) => parsed_line(line@, line_num) == Ok::<LineView, InternalErrorView>(
                parsed@,
            ),
            Err(e) => parsed_line(line@, line_num) == Err::<LineView, InternalErrorView>(e@),
        },
{
    let chars = chars_of(line);
    let comment = chars.len() > 0 && chars[0] == '#';
    if comment || matches_pattern("^\\s*\\n*$", line) {
        let end = end_without_trailing(&chars, 0, chars.len(), '\n');
        proof {
            assert(chars@.subrange(0, chars@.len() as int) =~= chars@);
        }
        return Ok(Line::Ignorable(text_of_range(&chars, 0, end)));
    }
    proof {
        lemma_first_index_of(chars@, '=');
        lemma_first_index_of(chars@, ' ');
    }
    match find_char(&chars, '=') {
        None => Err(InternalError::parse_error(line_num, "missing '='")),
        Some(at) => {
            let ghost key = chars@.take(at as int);
            let spaces = match find_char(&chars, ' ') {
                Some(space_at) => space_at < at,
                None => false,
            };
            proof {
                if spaces {
                    let j = first_index_of(chars@, ' ');
                    assert(key[j] == ' ');
                }
                if key.contains(' ') {
                    let j = choose|j: int| 0 <= j < key.len() && key[j] == ' ';
                    assert(chars@[j] == ' ');
                }
                assert(chars@.subrange(0, at as int) =~= key);
            }
            if spaces {
                let mut message = String::from_str("key '");
                message.append(text_of_range(&chars, 0, at).as_str());
                message.append("' contains spaces");
                return Err(InternalError::parse_error(line_num, message.as_str()));
            }
            let end = end_without_trailing(&chars, at + 1, chars.len(), '\n');
            proof {
                assert(chars@.subrange(at + 1, chars@.len() as int) =~= chars@.skip(at + 1));
            }
            let key_text = text_of_range(&chars, 0, at);
            let value_text = text_of_range(&chars, at + 1, end);
            Ok(Line::Prop(Property::new(key_text.as_str(), value_text.as_str())))
        },
    }
}

} // verus!
