//! The values that pass between the parser, the overriders and their caller:
//! a property, the errors of a run, and the arguments of a run before and
//! after validation.

use crate::replacement::ReplacementMap;
use crate::text::{
    chars_of, find_char, first_index_of, lemma_first_index_of, push_char, text_of_range, trim,
    trim_bounds,
};
use vstd::prelude::*;

verus! {

/// What a [`Property`] is: a key and a value, each a sequence of characters.
pub struct PropertyView {
    pub key: Seq<char>,
    pub value: Seq<char>,
}

/// One `key=value` pair.
#[derive(Debug, PartialEq)]
pub struct Property {
    pub key: String,
    pub value: String,
}

impl View for Property {
    type V = PropertyView;

    open spec fn view(&self) -> PropertyView {
        PropertyView { key: self.key@, value: self.value@ }
    }
}

impl Property {
    /// The property with this key and this value.
    pub fn new(key: &str, value: &str) -> (p: Property)
        ensures
            p@ == (PropertyView { key: key@, value: value@ }),
    {
        Property { key: String::from_str(key), value: String::from_str(value) }
    }
}

/// The views of a sequence of strings, in the same order.
pub open spec fn texts(v: Seq<String>) -> Seq<Seq<char>> {
    v.map_values(|s: String| s@)
}

/// What an [`InternalError`] is.
pub enum InternalErrorView {
    ParseError { line_num: i32, message: Seq<char> },
    ArgumentValidationErrors(Seq<Seq<char>>),
    FileAccessError(Seq<char>),
}

/// Why a run stopped.
#[derive(Debug)]
pub enum InternalError {
    /// A line is neither ignorable nor a property; `line_num` counts from 1.
    ParseError { line_num: i32, message: String },
    /// Everything that is wrong with the arguments, one message for each fault.
    ArgumentValidationErrors(Vec<String>),
    /// A file could not be opened, read or written; the text says why.
    FileAccessError(String),
}

impl View for InternalError {
    type V = InternalErrorView;

    open spec fn view(&self) -> InternalErrorView {
        match self {
            InternalError::ParseError { line_num, message } => InternalErrorView::ParseError {
                line_num: *line_num,
                message: message@,
            },
            InternalError::ArgumentValidationErrors(messages) => {
                InternalErrorView::ArgumentValidationErrors(texts(messages@))
            },
            InternalError::FileAccessError(text) => InternalErrorView::FileAccessError(text@),
        }
    }
}

/// The character that stands for the digit `d`.
pub open spec fn digit(d: int) -> char {
    if d == 0 {
        '0'
    } else if d == 1 {
        '1'
    } else if d == 2 {
        '2'
    } else if d == 3 {
        '3'
    } else if d == 4 {
        '4'
    } else if d == 5 {
        '5'
    } else if d == 6 {
        '6'
    } else if d == 7 {
        '7'
    } else if d == 8 {
        '8'
    } else {
        '9'
    }
}

/// The digits of `n` in base ten, the most significant first, with no leading zero.
pub open spec fn decimal_of_nat(n: nat) -> Seq<char>
    decreases n,
{
    if n < 10 {
        seq![digit(n as int)]
    } else {
        decimal_of_nat(n / 10).push(digit((n % 10) as int))
    }
}

/// `n` in base ten, with a minus sign before the digits of a negative number.
pub open spec fn decimal(n: int) -> Seq<char> {
    if n < 0 {
        seq!['-'] + decimal_of_nat((-n) as nat)
    } else {
        decimal_of_nat(n as nat)
    }
}

/// The messages one below the other, each behind a dash and a space.
pub open spec fn bulleted(messages: Seq<Seq<char>>) -> Seq<char>
    decreases messages.len(),
{
    if messages.len() == 0 {
        Seq::empty()
    } else if messages.len() == 1 {
        "- "@ + messages[0]
    } else {
        bulleted(messages.drop_last()) + "\n"@ + "- "@ + messages.last()
    }
}

/// The text that describes an error to the user.
pub open spec fn description(e: InternalErrorView) -> Seq<char> {
    match e {
        InternalErrorView::ParseError { line_num, message } => {
            "cannot parse property at line "@ + decimal(line_num as int) + ": "@ + message
        },
        InternalErrorView::ArgumentValidationErrors(messages) => {
            "invalid arguments:\n"@ + bulleted(messages)
        },
        InternalErrorView::FileAccessError(text) => "file access error: "@ + text,
    }
}

fn digit_char(d: u32) -> (c: char)
    requires
        d < 10,
    ensures
        c == digit(d as int),
{
    if d == 0 {
        '0'
    } else if d == 1 {
        '1'
    } else if d == 2 {
        '2'
    } else if d == 3 {
        '3'
    } else if d == 4 {
        '4'
    } else if d == 5 {
        '5'
    } else if d == 6 {
        '6'
    } else if d == 7 {
        '7'
    } else if d == 8 {
        '8'
    } else {
        '9'
    }
}

fn push_decimal_of_nat(s: &mut String, n: u32)
    ensures
        final(s)@ == old(s)@ + decimal_of_nat(n as nat),
    decreases n,
{
    if n >= 10 {
        push_decimal_of_nat(s, n / 10);
    }
    push_char(s, digit_char(n % 10));
}

/// Appends `n` in base ten to `s`.
pub fn push_decimal(s: &mut String, n: i32)
    ensures
        final(s)@ == old(s)@ + decimal(n as int),
{
    if n < 0 {
        push_char(s, '-');
        let magnitude: u32 = if n == i32::MIN {
            0x8000_0000u32
        } else {
            (-n) as u32
        };
        push_decimal_of_nat(s, magnitude);
    } else {
        push_decimal_of_nat(s, n as u32);
    }
}

impl InternalError {
    /// The parse error for this line and with this message.
    pub fn parse_error(line_num: i32, message: &str) -> (e: InternalError)
        ensures
            e@ == (InternalErrorView::ParseError { line_num, message: message@ }),
    {
        InternalError::ParseError { line_num, message: String::from_str(message) }
    }

    /// The text that describes this error to the user.
    pub fn describe(&self) -> (s: String)
        ensures
            s@ == description(self@),
    {
        match self {
            InternalError::ParseError { line_num, message } => {
                let mut s = String::from_str("cannot parse property at line ");
                push_decimal(&mut s, *line_num);
                s.append(": ");
                s.append(message.as_str());
                s
            },
            InternalError::ArgumentValidationErrors(messages) => {
                let mut s = String::from_str("invalid arguments:\n");
                let ghost head = s@;
                let mut i: usize = 0;
                while i < messages.len()
                    invariant
                        i <= messages.len(),
                        s@ == head + bulleted(texts(messages@).take(i as int)),
                    decreases messages.len() - i,
                {
                    proof {
                        let all = texts(messages@);
                        assert(all.take(i + 1).drop_last() =~= all.take(i as int));
                        assert(all.take(i + 1).last() == messages@[i as int]@);
                    }
                    if i > 0 {
                        s.append("\n");
                    }
                    s.append("- ");
                    s.append(messages[i].as_str());
                    i = i + 1;
                }
                proof {
                    let all = texts(messages@);
                    assert(all.take(messages.len() as int) =~= all);
                }
                s
            },
            InternalError::FileAccessError(text) => {
                let mut s = String::from_str("file access error: ");
                s.append(text.as_str());
                s
            },
        }
    }
}

/// The arguments of a run as the user gave them.
#[derive(Debug)]
pub struct Args {
    /// Where the result goes; standard output where there is none.
    pub output_file: Option<String>,
    /// Whether keys are looked up in the Spring style.
    pub spring: bool,
    /// What the name of every environment variable that takes part begins with.
    pub prefix: String,
    /// The replacements of the custom style, each written `c#str`.
    pub replacement: Vec<String>,
    /// Where the properties are read from; standard input where there is none.
    pub file: Option<String>,
}

/// The arguments of a run once they were found valid.
#[derive(Debug, PartialEq)]
pub struct Configuration {
    pub output_file: Option<String>,
    pub spring: bool,
    pub prefix: String,
    pub replacement_map: ReplacementMap,
    pub file: Option<String>,
}

/// The message for replacements given together with the Spring style.
pub open spec fn spring_error() -> Seq<char> {
    "replacements are not allowed when 'spring' flag is passed"@
}

/// The message for an empty prefix.
pub open spec fn prefix_error() -> Seq<char> {
    "prefix must not be empty"@
}

/// The message for a replacement that is no mapping, with the reason.
pub open spec fn mapping_error(replacement: Seq<char>, reason: Seq<char>) -> Seq<char> {
    "replacement '"@ + replacement
        + "' does not contain valid mapping in the format 'c#str': "@ + reason
}

/// The left side of a replacement as it is meant: a backslash and a dash stand for a dash.
pub open spec fn unescaped(left: Seq<char>) -> Seq<char> {
    if left == seq!['\\', '-'] {
        seq!['-']
    } else {
        left
    }
}

/// What the left side of `replacement` means: what stands before its first
/// `#`, without the whitespace around it and unescaped.
pub open spec fn replacement_left(replacement: Seq<char>) -> Seq<char> {
    unescaped(trim(replacement.take(first_index_of(replacement, '#'))))
}

/// The right side of `replacement`: what stands behind its first `#`, without
/// the whitespace around it.
pub open spec fn replacement_right(replacement: Seq<char>) -> Seq<char> {
    trim(replacement.skip(first_index_of(replacement, '#') + 1))
}

/// The mapping that one replacement of the arguments stands for, or the
/// message that says why it stands for none.
///
/// A replacement is a mapping where it holds a `#` and its left side is
/// exactly one character.
pub open spec fn parse_replacement(replacement: Seq<char>) -> Result<
    (char, Seq<char>),
    Seq<char>,
> {
    if !replacement.contains('#') {
        Err(mapping_error(replacement, "'#' missing"@))
    } else if replacement_left(replacement).len() != 1 {
        Err(
            mapping_error(
                replacement,
                "'"@ + replacement_left(replacement) + "' is not a character"@,
            ),
        )
    } else {
        Ok((replacement_left(replacement)[0], replacement_right(replacement)))
    }
}

/// The messages for those of the replacements that are no mapping, in their order.
pub open spec fn replacement_errors(replacements: Seq<Seq<char>>) -> Seq<Seq<char>>
    decreases replacements.len(),
{
    if replacements.len() == 0 {
        Seq::empty()
    } else {
        let before = replacement_errors(replacements.drop_last());
        match parse_replacement(replacements.last()) {
            Ok(_) => before,
            Err(message) => before.push(message),
        }
    }
}

/// The mapping that the valid ones among the replacements make up, a later
/// one replacing an earlier one for the same character.
pub open spec fn replacement_entries(replacements: Seq<Seq<char>>) -> Map<char, Seq<char>>
    decreases replacements.len(),
{
    if replacements.len() == 0 {
        Map::empty()
    } else {
        let before = replacement_entries(replacements.drop_last());
        match parse_replacement(replacements.last()) {
            Ok((c, replacement)) => before.insert(c, replacement),
            Err(_) => before,
        }
    }
}

/// What is wrong with the style and the prefix: that replacements came with
/// the Spring style, then that the prefix is empty.
pub open spec fn setting_errors(spring: bool, prefix: Seq<char>, replacements: nat) -> Seq<
    Seq<char>,
> {
    (if spring && replacements > 0 {
        seq![spring_error()]
    } else {
        Seq::empty()
    }) + (if prefix.len() == 0 {
        seq![prefix_error()]
    } else {
        Seq::empty()
    })
}

/// Everything that is wrong with the arguments: first the
/// [`setting_errors`], then a message for each replacement that is no mapping.
pub open spec fn validation_errors(
    spring: bool,
    prefix: Seq<char>,
    replacements: Seq<Seq<char>>,
) -> Seq<Seq<char>> {
    setting_errors(spring, prefix, replacements.len()) + replacement_errors(replacements)
}

/// Replacements given with the Spring style are an error, and the only one
/// where the prefix is not empty and each replacement is a mapping.
pub proof fn lemma_spring_excludes_replacements(prefix: Seq<char>, replacements: Seq<Seq<char>>)
    requires
        replacements.len() > 0,
    ensures
        validation_errors(true, prefix, replacements).contains(spring_error()),
        prefix.len() > 0 && replacement_errors(replacements).len() == 0 ==> validation_errors(
            true,
            prefix,
            replacements,
        ) == seq![spring_error()],
{
    let errors = validation_errors(true, prefix, replacements);
    assert(errors[0] == spring_error());
    if prefix.len() > 0 && replacement_errors(replacements).len() == 0 {
        assert(errors =~= seq![spring_error()]);
    }
}

/// An empty prefix is an error whatever else the arguments hold, and where
/// replacements come with the Spring style both messages are given.
pub proof fn lemma_empty_prefix_is_an_error(spring: bool, replacements: Seq<Seq<char>>)
    ensures
        validation_errors(spring, Seq::empty(), replacements).contains(prefix_error()),
        spring && replacements.len() > 0 ==> validation_errors(
            spring,
            Seq::empty(),
            replacements,
        ).contains(spring_error()),
{
    let errors = validation_errors(spring, Seq::empty(), replacements);
    if spring && replacements.len() > 0 {
        assert(errors[0] == spring_error());
        assert(errors[1] == prefix_error());
    } else {
        assert(errors[0] == prefix_error());
    }
}

fn mapping_error_text(replacement: &str, reason: &str) -> (s: String)
    ensures
        s@ == mapping_error(replacement@, reason@),
{
    let mut s = String::from_str("replacement '");
    s.append(replacement);
    s.append("' does not contain valid mapping in the format 'c#str': ");
    s.append(reason);
    s
}

/// Reads one replacement of the arguments.
pub fn read_replacement(replacement: &str) -> (r: Result<(char, String), String>)
    ensures
        match r {
            Ok((c, right)) => parse_replacement(replacement@) == Ok::<
                (char, Seq<char>),
                Seq<char>,
            >((c, right@)),
            Err(message) => parse_replacement(replacement@) == Err::<
                (char, Seq<char>),
                Seq<char>,
            >(message@),
        },
{
    let chars = chars_of(replacement);
    proof {
        lemma_first_index_of(chars@, '#');
    }
    match find_char(&chars, '#') {
        None => Err(mapping_error_text(replacement, "'#' missing")),
        Some(at) => {
            let (from, to) = trim_bounds(&chars, 0, at);
            let (right_from, right_to) = trim_bounds(&chars, at + 1, chars.len());
            proof {
                assert(chars@.subrange(0, at as int) =~= chars@.take(at as int));
                assert(chars@.subrange(at + 1, chars@.len() as int) =~= chars@.skip(at + 1));
            }
            let ghost trimmed = chars@.subrange(from as int, to as int);
            let escaped = to - from == 2 && chars[from] == '\\' && chars[from + 1] == '-';
            proof {
                if escaped {
                    assert(trimmed =~= seq!['\\', '-']);
                } else if trimmed.len() == 2 {
                    assert(trimmed[0] == chars@[from as int]);
                    assert(trimmed[1] == chars@[from + 1]);
                    assert(seq!['\\', '-'][0] == '\\');
                    assert(seq!['\\', '-'][1] == '-');
                } else {
                    assert(seq!['\\', '-'].len() == 2);
                }
            }
            if escaped {
                Ok(('-', text_of_range(&chars, right_from, right_to)))
            } else if to - from == 1 {
                Ok((chars[from], text_of_range(&chars, right_from, right_to)))
            } else {
                let mut reason = String::from_str("'");
                reason.append(text_of_range(&chars, from, to).as_str());
                reason.append("' is not a character");
                Err(mapping_error_text(replacement, reason.as_str()))
            }
        },
    }
}

impl Args {
    /// Checks the arguments and turns them into a configuration.
    ///
    /// The result is the configuration where nothing is wrong, and else every
    /// message of [`validation_errors`], in that order.
    pub fn validate_and_convert(self) -> (r: Result<Configuration, InternalError>)
        ensures
            match r {
                Ok(c) => {
                    &&& validation_errors(self.spring, self.prefix@, texts(self.replacement@)).len()
                        == 0
                    &&& c.output_file == self.output_file
                    &&& c.spring == self.spring
                    &&& c.prefix == self.prefix
                    &&& c.replacement_map@ == replacement_entries(texts(self.replacement@))
                    &&& c.file == self.file
                },
                Err(e) => {
                    &&& validation_errors(self.spring, self.prefix@, texts(self.replacement@)).len()
                        > 0
                    &&& e@ == InternalErrorView::ArgumentValidationErrors(
                        validation_errors(self.spring, self.prefix@, texts(self.replacement@)),
                    )
                },
            },
    {
        let ghost all = texts(self.replacement@);
        let mut errors: Vec<String> = Vec::new();
        if self.spring && self.replacement.len() > 0 {
            errors.push(
                String::from_str("replacements are not allowed when 'spring' flag is passed"),
            );
        }
        if self.prefix.as_str().is_empty() {
            errors.push(String::from_str("prefix must not be empty"));
        }
        let ghost before = texts(errors@);
        proof {
            assert(before =~= setting_errors(self.spring, self.prefix@, all.len()));
        }
        if self.spring && errors.len() == 0 {
            proof {
                assert(all.len() == 0);
                assert(validation_errors(self.spring, self.prefix@, all) =~= before);
            }
            return Ok(
                Configuration {
                    output_file: self.output_file,
                    spring: self.spring,
                    replacement_map: ReplacementMap::new(),
                    prefix: self.prefix,
                    file: self.file,
                },
            );
        }
        let mut replacement_map = ReplacementMap::new();
        let mut i: usize = 0;
        while i < self.replacement.len()
            invariant
                i <= self.replacement@.len(),
                all == texts(self.replacement@),
                texts(errors@) == before + replacement_errors(all.take(i as int)),
                replacement_map@ == replacement_entries(all.take(i as int)),
            decreases self.replacement@.len() - i,
        {
            proof {
                assert(all.take(i + 1).drop_last() =~= all.take(i as int));
                assert(all.take(i + 1).last() == self.replacement@[i as int]@);
            }
            let ghost errors_before = errors@;
            match read_replacement(self.replacement[i].as_str()) {
                Ok((c, right)) => {
                    replacement_map = replacement_map.with(c, right);
                },
                Err(message) => {
                    errors.push(message);
                    proof {
                        assert(texts(errors@) =~= texts(errors_before).push(message@));
                    }
                },
            }
            i = i + 1;
        }
        proof {
            assert(all.take(all.len() as int) =~= all);
            assert(validation_errors(self.spring, self.prefix@, all) =~= before
                + replacement_errors(all));
        }
        if errors.len() > 0 {
            return Err(InternalError::ArgumentValidationErrors(errors));
        }
        Ok(
            Configuration {
                output_file: self.output_file,
                spring: self.spring,
                replacement_map,
                prefix: self.prefix,
                file: self.file,
            },
        )
    }
}

} // verus!
