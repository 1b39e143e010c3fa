//! A whole run: the lines of a properties file go in, and out come the same
//! lines with the values that the environment overrides, and behind them the
//! properties that only the environment holds.

use crate::model::{texts, InternalError, InternalErrorView, Property, PropertyView};
use crate::overriding::{property_views, Overrider};
use crate::variables::{value_of, with_prefix};
use crate::properties_parser::{parse_line, parsed_line, Line, LineView};
use vstd::prelude::*;

verus! {

/// The number of the line at `index`, counted from 1. It is a 32-bit number:
/// behind line 2147483647 the count goes on from -2147483648.
pub open spec fn line_number(index: int) -> i32 {
    let n = (index + 1) % 0x1_0000_0000;
    if n < 0x8000_0000 {
        n as i32
    } else {
        (n - 0x1_0000_0000) as i32
    }
}

/// What the line at `index` is.
pub open spec fn line_at(lines: Seq<Seq<char>>, index: int) -> Result<
    LineView,
    InternalErrorView,
> {
    parsed_line(lines[index], line_number(index))
}

/// A property as a line: the key, `=`, the value.
pub open spec fn property_line(key: Seq<char>, value: Seq<char>) -> Seq<char> {
    key + seq!['='] + value
}

/// The line that goes out for a line that came in: an ignorable line as it
/// is, a property with the value that overrides its own, if there is one.
pub open spec fn rewritten<O: Overrider>(overrider: &O, prefix: Seq<char>, line: LineView) -> Seq<
    char,
> {
    match line {
        LineView::Ignorable(text) => text,
        LineView::Prop(property) => property_line(
            property.key,
            match value_of(overrider.variables(), overrider.lookup_name(property.key, Some(prefix))) {
                Some(value) => value,
                None => property.value,
            },
        ),
    }
}

/// The lines that go out for the lines that came in, one for one.
pub open spec fn rewritten_lines<O: Overrider>(
    overrider: &O,
    prefix: Seq<char>,
    lines: Seq<Seq<char>>,
) -> Seq<Seq<char>> {
    Seq::new(
        lines.len(),
        |i: int|
            match line_at(lines, i) {
                Ok(line) => rewritten(overrider, prefix, line),
                Err(_) => Seq::empty(),
            },
    )
}

/// The keys of the properties among the lines, in their order.
pub open spec fn defined_keys(lines: Seq<Seq<char>>) -> Seq<Seq<char>>
    decreases lines.len(),
{
    if lines.len() == 0 {
        Seq::empty()
    } else {
        let before = defined_keys(lines.drop_last());
        match parsed_line(lines.last(), line_number(lines.len() - 1)) {
            Ok(LineView::Prop(property)) => before.push(property.key),
            _ => before,
        }
    }
}

/// The properties that the environment stands for by itself, in the order of
/// its variables.
pub open spec fn additions<O: Overrider>(overrider: &O, prefix: Seq<char>) -> Seq<PropertyView> {
    Seq::new(
        with_prefix(overrider.variables(), prefix).len(),
        |k: int|
            PropertyView {
                key: overrider.property_key(with_prefix(overrider.variables(), prefix)[k].0),
                value: with_prefix(overrider.variables(), prefix)[k].1,
            },
    )
}

/// Those of the properties whose keys are not among `defined`, in their order.
pub open spec fn undefined(properties: Seq<PropertyView>, defined: Seq<Seq<char>>) -> Seq<
    PropertyView,
>
    decreases properties.len(),
{
    if properties.len() == 0 {
        Seq::empty()
    } else {
        let before = undefined(properties.drop_last(), defined);
        if defined.contains(properties.last().key) {
            before
        } else {
            before.push(properties.last())
        }
    }
}

/// The properties as lines.
pub open spec fn property_lines(properties: Seq<PropertyView>) -> Seq<Seq<char>> {
    properties.map_values(|p: PropertyView| property_line(p.key, p.value))
}

/// What a run puts out: a line for each line that came in, then a line for
/// each property of the environment whose key no line has defined.
pub open spec fn output<O: Overrider>(
    overrider: &O,
    prefix: Seq<char>,
    lines: Seq<Seq<char>>,
) -> Seq<Seq<char>> {
    rewritten_lines(overrider, prefix, lines) + property_lines(
        undefined(additions(overrider, prefix), defined_keys(lines)),
    )
}

/// Whether the line at `index` is the first that is refused, with `error`.
pub open spec fn fails_at(lines: Seq<Seq<char>>, index: int, error: InternalErrorView) -> bool {
    &&& 0 <= index < lines.len()
    &&& forall|j: int| 0 <= j < index ==> (#[trigger] line_at(lines, j)) is Ok
    &&& line_at(lines, index) == Err::<LineView, InternalErrorView>(error)
}

/// Whether some line is the first that is refused, with `error`.
pub open spec fn fails_with(lines: Seq<Seq<char>>, error: InternalErrorView) -> bool {
    exists|index: int| fails_at(lines, index, error)
}

/// The key of each property among the lines is among the defined keys.
pub proof fn lemma_defined_keys(lines: Seq<Seq<char>>, index: int, property: PropertyView)
    requires
        0 <= index < lines.len(),
        line_at(lines, index) == Ok::<LineView, InternalErrorView>(LineView::Prop(property)),
    ensures
        defined_keys(lines).contains(property.key),
    decreases lines.len(),
{
    let before = defined_keys(lines.drop_last());
    if index == lines.len() - 1 {
        assert(defined_keys(lines) == before.push(property.key));
        assert(defined_keys(lines)[before.len() as int] == property.key);
    } else {
        assert(lines.drop_last()[index] == lines[index]);
        lemma_defined_keys(lines.drop_last(), index, property);
        let k = choose|k: int| 0 <= k < before.len() && before[k] == property.key;
        assert(defined_keys(lines)[k] == property.key);
    }
}

/// Whether `property` is among `properties` and its key is not among `defined`.
pub open spec fn is_addition(
    properties: Seq<PropertyView>,
    defined: Seq<Seq<char>>,
    property: PropertyView,
) -> bool {
    properties.contains(property) && !defined.contains(property.key)
}

/// What is kept of the properties is exactly those whose keys are not defined.
pub proof fn lemma_undefined(properties: Seq<PropertyView>, defined: Seq<Seq<char>>)
    ensures
        forall|k: int|
            0 <= k < undefined(properties, defined).len() ==> is_addition(
                properties,
                defined,
                #[trigger] undefined(properties, defined)[k],
            ),
        forall|property: PropertyView| #[trigger]
            is_addition(properties, defined, property) ==> undefined(
                properties,
                defined,
            ).contains(property),
    decreases properties.len(),
{
    if properties.len() > 0 {
        let head = properties.drop_last();
        let last = properties.last();
        let all = undefined(properties, defined);
        let before = undefined(head, defined);
        lemma_undefined(head, defined);
        assert forall|k: int| 0 <= k < all.len() implies is_addition(
            properties,
            defined,
            #[trigger] all[k],
        ) by {
            if k < before.len() {
                assert(all[k] == before[k]);
                assert(is_addition(head, defined, before[k]));
                let i = choose|i: int| 0 <= i < head.len() && head[i] == before[k];
                assert(properties[i] == before[k]);
            } else {
                assert(properties[properties.len() - 1] == last);
            }
        }
        assert forall|property: PropertyView| #[trigger]
            is_addition(properties, defined, property) implies all.contains(property) by {
            let i = choose|i: int| 0 <= i < properties.len() && properties[i] == property;
            if i < head.len() {
                assert(head[i] == property);
                assert(is_addition(head, defined, property));
                let k = choose|k: int| 0 <= k < before.len() && before[k] == property;
                assert(all[k] == property);
            } else {
                assert(all[all.len() - 1] == property);
            }
        }
    }
}

/// A property that stands in the file is put out once, on the line where it
/// stood, and never again behind the file: of the properties of the
/// environment only those go out whose keys no line of the file has defined,
/// whether or not the environment has overridden the value on that line.
pub proof fn lemma_file_wins<O: Overrider>(
    overrider: &O,
    prefix: Seq<char>,
    lines: Seq<Seq<char>>,
    index: int,
    property: PropertyView,
)
    requires
        0 <= index < lines.len(),
        line_at(lines, index) == Ok::<LineView, InternalErrorView>(LineView::Prop(property)),
    ensures
        output(overrider, prefix, lines).len() == lines.len() + undefined(
            additions(overrider, prefix),
            defined_keys(lines),
        ).len(),
        output(overrider, prefix, lines)[index] == rewritten(
            overrider,
            prefix,
            LineView::Prop(property),
        ),
        forall|k: int|
            0 <= k < undefined(additions(overrider, prefix), defined_keys(lines)).len()
                ==> (#[trigger] undefined(additions(overrider, prefix), defined_keys(lines))[k]).key
                != property.key,
{
    lemma_defined_keys(lines, index, property);
    lemma_undefined(additions(overrider, prefix), defined_keys(lines));
    let kept = undefined(additions(overrider, prefix), defined_keys(lines));
    assert forall|k: int| 0 <= k < kept.len() implies (#[trigger] kept[k]).key
        != property.key by {
        assert(is_addition(additions(overrider, prefix), defined_keys(lines), kept[k]));
    }
}

/// The number of the line at `index`.
pub fn number_of_line(index: usize) -> (n: i32)
    ensures
        n == line_number(index as int),
{
    let wrapped: u64 = (index as u64 % 0x1_0000_0000 + 1) % 0x1_0000_0000;
    if wrapped < 0x8000_0000 {
        wrapped as i32
    } else {
        (wrapped as i64 - 0x1_0000_0000) as i32
    }
}

/// The line `key=value`.
pub fn write_property(key: &str, value: &str) -> (line: String)
    ensures
        line@ == property_line(key@, value@),
{
    let mut line = String::from_str(key);
    line.append("=");
    line.append(value);
    proof {
        reveal_strlit("=");
        assert("="@ =~= seq!['=']);
    }
    line
}

/// The line that goes out for `line`.
pub fn rewrite_line<O: Overrider>(overrider: &O, prefix: &str, line: Line) -> (out: String)
    ensures
        out@ == rewritten(overrider, prefix@, line@),
{
    match line {
        Line::Ignorable(text) => text,
        Line::Prop(property) => {
            match overrider.resolve_substitution(property.key.as_str(), Some(prefix)) {
                Some(overridden_value) => write_property(property.key.as_str(), overridden_value),
                None => write_property(property.key.as_str(), property.value.as_str()),
            }
        },
    }
}

/// Whether `text` is among `all`.
fn contains_text(all: &Vec<String>, text: &String) -> (b: bool)
    ensures
        b == texts(all@).contains(text@),
{
    let mut i: usize = 0;
    while i < all.len()
        invariant
            i <= all@.len(),
            forall|j: int| 0 <= j < i ==> texts(all@)[j] != text@,
        decreases all@.len() - i,
    {
        if all[i] == *text {
            assert(texts(all@)[i as int] == text@);
            return true;
        }
        assert(texts(all@)[i as int] == all@[i as int]@);
        i = i + 1;
    }
    false
}

/// The lines for those of `properties` whose keys are not among `defined`.
pub fn undefined_lines(properties: &Vec<Property>, defined: &Vec<String>) -> (out: Vec<String>)
    ensures
        texts(out@) == property_lines(undefined(property_views(properties@), texts(defined@))),
{
    let ghost all = property_views(properties@);
    let mut out: Vec<String> = Vec::new();
    let mut i: usize = 0;
    while i < properties.len()
        invariant
            i <= properties@.len(),
            all == property_views(properties@),
            texts(out@) == property_lines(undefined(all.take(i as int), texts(defined@))),
        decreases properties@.len() - i,
    {
        proof {
            assert(all.take(i + 1).drop_last() =~= all.take(i as int));
            assert(all.take(i + 1).last() == properties@[i as int]@);
        }
        if !contains_text(defined, &properties[i].key) {
            let ghost before = out@;
            let line = write_property(properties[i].key.as_str(), properties[i].value.as_str());
            out.push(line);
            proof {
                assert(texts(out@) =~= texts(before).push(line@));
                let kept = undefined(all.take(i as int), texts(defined@));
                assert(property_lines(kept.push(properties@[i as int]@)) =~= property_lines(
                    kept,
                ).push(line@));
            }
        }
        i = i + 1;
    }
    proof {
        assert(all.take(all.len() as int) =~= all);
    }
    out
}

/// Rewrites the lines of a properties file.
///
/// Where every line is a comment, a blank line or a property, the result is
/// [`output`]. Where one is not, the run stops at the first such line, with
/// its error.
pub fn override_properties<O: Overrider>(overrider: &O, prefix: &str, lines: &Vec<String>) -> (r:
    Result<Vec<String>, InternalError>)
    ensures
        match r {
            Ok(out) => {
                &&& forall|i: int|
                    0 <= i < lines@.len() ==> (#[trigger] line_at(texts(lines@), i)) is Ok
                &&& texts(out@) == output(overrider, prefix@, texts(lines@))
            },
            Err(e) => fails_with(texts(lines@), e@),
        },
{
    let ghost all = texts(lines@);
    let mut out: Vec<String> = Vec::new();
    let mut defined: Vec<String> = Vec::new();
    let mut i: usize = 0;
    while i < lines.len()
        invariant
            i <= lines@.len(),
            all == texts(lines@),
            forall|j: int| 0 <= j < i ==> (#[trigger] line_at(all, j)) is Ok,
            texts(out@) == rewritten_lines(overrider, prefix@, all.take(i as int)),
            texts(defined@) == defined_keys(all.take(i as int)),
        decreases lines@.len() - i,
    {
        proof {
            assert(all.take(i + 1).drop_last() =~= all.take(i as int));
            assert(all.take(i + 1).last() == lines@[i as int]@);
            assert(all[i as int] == lines@[i as int]@);
        }
        let ghost out_before = out@;
        let ghost defined_before = defined@;
        match parse_line(lines[i].as_str(), number_of_line(i)) {
            Err(e) => {
                proof {
                    assert(fails_at(all, i as int, e@));
                }
                return Err(e);
            },
            Ok(line) => {
                let ghost line_view = line@;
                if let Line::Prop(property) = &line {
                    defined.push(property.key.clone());
                    proof {
                        assert(texts(defined@) =~= texts(defined_before).push(property.key@));
                    }
                }
                let rewritten_line = rewrite_line(overrider, prefix, line);
                out.push(rewritten_line);
                proof {
                    assert(texts(out@) =~= texts(out_before).push(rewritten_line@));
                    let now = rewritten_lines(overrider, prefix@, all.take(i + 1));
                    let before = rewritten_lines(overrider, prefix@, all.take(i as int));
                    assert forall|j: int| 0 <= j < i implies now[j] == before[j] by {
                        assert(all.take(i + 1)[j] == all.take(i as int)[j]);
                    }
                    assert(line_at(all.take(i + 1), i as int) == line_at(all, i as int));
                    assert(now =~= before.push(rewritten_line@));
                }
            },
        }
        i = i + 1;
    }
    proof {
        assert(all.take(all.len() as int) =~= all);
    }
    let additions = overrider.generate_additions(prefix);
    proof {
        assert(property_views(additions@) =~= self::additions(overrider, prefix@));
    }
    let mut appended = undefined_lines(&additions, &defined);
    let ghost head = out@;
    let ghost tail = appended@;
    out.append(&mut appended);
    proof {
        assert(texts(out@) =~= texts(head) + texts(tail));
    }
    Ok(out)
}

} // verus!
