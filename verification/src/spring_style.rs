//! What the Spring style makes of a key and of the name of a variable: upper
//! case and underscores one way, lower case and dots the other.

use crate::text::{prefix_or_empty, replace_char};
use vstd::prelude::*;

verus! {

/// What `str::to_uppercase` makes of a string.
pub uninterp spec fn uppercase_of(s: Seq<char>) -> Seq<char>;

/// What `str::to_lowercase` makes of a string.
pub uninterp spec fn lowercase_of(s: Seq<char>) -> Seq<char>;

/// `str::to_uppercase`: the string in upper case, as Unicode defines it. The
/// result is a function of the characters alone, and [`uppercase_of`] is its name.
#[verifier::external_body]
pub(crate) fn to_uppercase(s: &str) -> (r: String)
    ensures
        r@ == uppercase_of(s@),
{
    s.to_uppercase()
}

/// `str::to_lowercase`: the string in lower case, as Unicode defines it. The
/// result is a function of the characters alone, and [`lowercase_of`] is its name.
#[verifier::external_body]
pub(crate) fn to_lowercase(s: &str) -> (r: String)
    ensures
        r@ == lowercase_of(s@),
{
    s.to_lowercase()
}

/// The name under which the Spring style looks a key up: the prefix, then the
/// key in upper case with `_` for each `.` and each `-`.
pub open spec fn spring_lookup_name(key: Seq<char>, prefix: Option<Seq<char>>) -> Seq<char> {
    prefix_or_empty(prefix) + uppercase_of(replace_char(replace_char(key, '.', '_'), '-', '_'))
}

/// The name of a variable, without the prefix, before the Spring style puts
/// it in lower case: with `.` for each `_`.
pub open spec fn spring_dotted(name: Seq<char>) -> Seq<char> {
    replace_char(name, '_', '.')
}

/// The key that a name without the prefix stands for in the Spring style:
/// the name with `.` for each `_`, in lower case.
pub open spec fn spring_property_key(name: Seq<char>) -> Seq<char> {
    lowercase_of(spring_dotted(name))
}

/// In the Spring style a key with `.`, with `-` or with `_` in one place is
/// looked up under one and the same name.
pub proof fn lemma_spring_conflates_separators(key: Seq<char>, prefix: Option<Seq<char>>)
    ensures
        spring_lookup_name(replace_char(key, '.', '_'), prefix) == spring_lookup_name(key, prefix),
        spring_lookup_name(replace_char(key, '-', '_'), prefix) == spring_lookup_name(key, prefix),
        spring_lookup_name(replace_char(key, '-', '.'), prefix) == spring_lookup_name(key, prefix),
{
    let plain = replace_char(replace_char(key, '.', '_'), '-', '_');
    assert(replace_char(replace_char(replace_char(key, '.', '_'), '.', '_'), '-', '_') =~= plain);
    assert(replace_char(replace_char(replace_char(key, '-', '_'), '.', '_'), '-', '_') =~= plain);
    assert(replace_char(replace_char(replace_char(key, '-', '.'), '.', '_'), '-', '_') =~= plain);
}

/// Before the Spring style puts a name in lower case, it has turned each `_`
/// into `.` and left every other character alone: so what it lowers holds a
/// `-` only where the name of the variable holds one, never for a `_`.
pub proof fn lemma_spring_never_restores_dash(name: Seq<char>)
    ensures
        spring_dotted(name).len() == name.len(),
        forall|i: int|
            0 <= i < name.len() ==> (#[trigger] spring_dotted(name)[i] == '-' <==> name[i]
                == '-'),
        forall|i: int| 0 <= i < name.len() && name[i] == '_' ==> spring_dotted(name)[i] == '.',
        !name.contains('-') ==> !spring_dotted(name).contains('-'),
{
    if !name.contains('-') && spring_dotted(name).contains('-') {
        let i = choose|i: int| 0 <= i < spring_dotted(name).len() && spring_dotted(name)[i] == '-';
        assert(name[i] == '-');
    }
}

} // verus!
