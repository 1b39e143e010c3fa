//! What the custom style makes of a key and of the name of a variable: each
//! character gives way to its replacement, and a name is read back by taking
//! the longest replacement that stands at each place.

use crate::text::prefix_or_empty;
use vstd::prelude::*;

verus! {

/// What stands for `c` in the name of a variable: its replacement, or `c`
/// itself where it has none.
pub open spec fn replacement_of(replacements: Map<char, Seq<char>>, c: char) -> Seq<char> {
    if replacements.contains_key(c) {
        replacements[c]
    } else {
        seq![c]
    }
}

/// The key with each character turned into what stands for it.
pub open spec fn transliterated(replacements: Map<char, Seq<char>>, key: Seq<char>) -> Seq<char>
    decreases key.len(),
{
    if key.len() == 0 {
        Seq::empty()
    } else {
        transliterated(replacements, key.drop_last()) + replacement_of(replacements, key.last())
    }
}

/// The name under which the custom style looks a key up: the prefix, then the
/// key transliterated, capitals as they are.
pub open spec fn custom_lookup_name(
    replacements: Map<char, Seq<char>>,
    key: Seq<char>,
    prefix: Option<Seq<char>>,
) -> Seq<char> {
    prefix_or_empty(prefix) + transliterated(replacements, key)
}

/// Whether `pattern`, which is not empty, stands at the start of `text`.
pub open spec fn occurs(text: Seq<char>, pattern: Seq<char>) -> bool {
    pattern.len() > 0 && pattern.is_prefix_of(text)
}

/// Whether the replacement `s` of `c` is tried before the replacement `t` of
/// `d`: the longer one first, and of two of one length that of the lesser
/// character.
pub open spec fn outranks(c: char, s: Seq<char>, d: char, t: Seq<char>) -> bool {
    s.len() > t.len() || (s.len() == t.len() && c <= d)
}

/// Whether the replacement of `c` is the one to read at the start of `text`:
/// it stands there, and it is tried before every other that stands there.
pub open spec fn is_best_match(replacements: Map<char, Seq<char>>, text: Seq<char>, c: char) -> bool {
    &&& replacements.contains_key(c)
    &&& occurs(text, replacements[c])
    &&& forall|d: char|
        replacements.contains_key(d) && occurs(text, #[trigger] replacements[d]) ==> outranks(
            c,
            replacements[c],
            d,
            replacements[d],
        )
}

/// The character whose replacement is the one to read at the start of `text`,
/// where there is one.
pub open spec fn best_match(replacements: Map<char, Seq<char>>, text: Seq<char>) -> char {
    choose|c: char| is_best_match(replacements, text, c)
}

/// The key that `text`, the name of a variable without the prefix, stands for
/// in the custom style. The text is read from left to right: where the
/// replacement of a character stands, the longest that does, that character
/// is read and the replacement passed over; elsewhere one character is taken
/// as it is. An empty replacement stands nowhere.
pub open spec fn read_back(replacements: Map<char, Seq<char>>, text: Seq<char>) -> Seq<char>
    decreases text.len(),
{
    if text.len() == 0 {
        Seq::empty()
    } else {
        let c = best_match(replacements, text);
        if is_best_match(replacements, text, c) {
            seq![c] + read_back(replacements, text.skip(replacements[c].len() as int))
        } else {
            seq![text[0]] + read_back(replacements, text.skip(1))
        }
    }
}

/// No two characters have the replacement to read at the start of one text.
pub proof fn lemma_best_match_is_unique(
    replacements: Map<char, Seq<char>>,
    text: Seq<char>,
    c: char,
    d: char,
)
    requires
        is_best_match(replacements, text, c),
        is_best_match(replacements, text, d),
    ensures
        c == d,
{
    assert(outranks(c, replacements[c], d, replacements[d]));
    assert(outranks(d, replacements[d], c, replacements[c]));
}

/// The replacement that is read at the start of a text is a longest among
/// those that stand there.
pub proof fn lemma_best_match_is_longest(
    replacements: Map<char, Seq<char>>,
    text: Seq<char>,
    c: char,
    d: char,
)
    requires
        is_best_match(replacements, text, c),
        replacements.contains_key(d),
        occurs(text, replacements[d]),
    ensures
        replacements[c].len() >= replacements[d].len(),
{
    assert(outranks(c, replacements[c], d, replacements[d]));
}

/// Whether `x` stands in the replacement of some character.
pub open spec fn in_a_replacement(replacements: Map<char, Seq<char>>, x: char) -> bool {
    exists|c: char| replacements.contains_key(c) && (#[trigger] replacements[c]).contains(x)
}

/// Whether the replacements tell the characters of `key` apart: none is
/// empty, no two characters share one, a character of the key without a
/// replacement stands in none, and of two neighbours in the key at most one
/// has a replacement.
pub open spec fn tells_apart(replacements: Map<char, Seq<char>>, key: Seq<char>) -> bool {
    &&& forall|c: char|
        replacements.contains_key(c) ==> (#[trigger] replacements[c]).len() > 0
    &&& forall|c: char, d: char|
        replacements.contains_key(c) && replacements.contains_key(d) && #[trigger] replacements[c]
            == #[trigger] replacements[d] ==> c == d
    &&& forall|i: int|
        0 <= i < key.len() && !replacements.contains_key(#[trigger] key[i]) ==> !in_a_replacement(
            replacements,
            key[i],
        )
    &&& forall|i: int|
        0 <= i < key.len() - 1 ==> !(replacements.contains_key(#[trigger] key[i])
            && replacements.contains_key(key[i + 1]))
}

/// What stands for a key is what stands for its first character, then what
/// stands for the rest.
pub proof fn lemma_transliterated_from_the_start(replacements: Map<char, Seq<char>>, key: Seq<char>)
    requires
        key.len() > 0,
    ensures
        transliterated(replacements, key) == replacement_of(replacements, key.first())
            + transliterated(replacements, key.drop_first()),
    decreases key.len(),
{
    if key.len() == 1 {
        assert(key.drop_last() =~= Seq::<char>::empty());
        assert(key.drop_first() =~= Seq::<char>::empty());
        assert(transliterated(replacements, key) =~= replacement_of(replacements, key.first())
            + transliterated(replacements, key.drop_first()));
    } else {
        let head = key.drop_last();
        lemma_transliterated_from_the_start(replacements, head);
        assert(head.drop_first() =~= key.drop_first().drop_last());
        assert(head.first() == key.first());
        assert(key.drop_first().last() == key.last());
        assert(transliterated(replacements, key) =~= replacement_of(replacements, key.first())
            + transliterated(replacements, key.drop_first()));
    }
}

/// The custom style reads a key back from the name that it looks the key up
/// under, without the prefix, where the replacements tell the characters of
/// the key apart.
pub proof fn lemma_custom_round_trip(replacements: Map<char, Seq<char>>, key: Seq<char>)
    requires
        tells_apart(replacements, key),
    ensures
        read_back(replacements, transliterated(replacements, key)) == key,
    decreases key.len(),
{
    if key.len() > 0 {
        let c = key.first();
        let rest = key.drop_first();
        let text = transliterated(replacements, key);
        let tail = transliterated(replacements, rest);
        lemma_transliterated_from_the_start(replacements, key);
        assert(tells_apart(replacements, rest)) by {
            assert forall|i: int|
                0 <= i < rest.len() && !replacements.contains_key(
                    #[trigger] rest[i],
                ) implies !in_a_replacement(replacements, rest[i]) by {
                assert(rest[i] == key[i + 1]);
            }
            assert forall|i: int| 0 <= i < rest.len() - 1 implies !(replacements.contains_key(
                #[trigger] rest[i],
            ) && replacements.contains_key(rest[i + 1])) by {
                assert(rest[i] == key[i + 1]);
                assert(rest[i + 1] == key[i + 2]);
            }
        }
        lemma_custom_round_trip(replacements, rest);
        if replacements.contains_key(c) {
            let own = replacements[c];
            assert(text =~= own + tail);
            assert(own =~= text.subrange(0, own.len() as int));
            assert forall|d: char|
                replacements.contains_key(d) && occurs(
                    text,
                    #[trigger] replacements[d],
                ) implies outranks(c, own, d, replacements[d]) by {
                let other = replacements[d];
                if other.len() > own.len() {
                    let x = rest[0];
                    assert(x == key[1]);
                    assert(replacements.contains_key(key[0]));
                    lemma_transliterated_from_the_start(replacements, rest);
                    assert(tail[0] == x);
                    assert(text[own.len() as int] == x);
                    assert(other[own.len() as int] == x);
                    assert(other.contains(x));
                    assert(in_a_replacement(replacements, x));
                } else if other.len() == own.len() {
                    assert(other =~= own);
                }
            }
            assert(is_best_match(replacements, text, c));
            lemma_best_match_is_unique(replacements, text, c, best_match(replacements, text));
            assert(text.skip(own.len() as int) =~= tail);
            assert(seq![c] + rest =~= key);
        } else {
            assert(text =~= seq![c] + tail);
            assert(key[0] == c);
            assert forall|d: char| !is_best_match(replacements, text, d) by {
                if is_best_match(replacements, text, d) {
                    assert(replacements[d][0] == text[0]);
                    assert(replacements[d].contains(c));
                    assert(in_a_replacement(replacements, c));
                }
            }
            assert(text.skip(1) =~= tail);
            assert(seq![c] + rest =~= key);
        }
    } else {
        assert(transliterated(replacements, key) =~= Seq::<char>::empty());
    }
}

/// A finite set of characters that is not empty holds one whose replacement
/// is tried before that of every other.
proof fn lemma_first_in_rank(replacements: Map<char, Seq<char>>, among: Set<char>) -> (c: char)
    requires
        among.finite(),
        among.len() > 0,
    ensures
        among.contains(c),
        forall|d: char|
            among.contains(d) ==> outranks(c, replacements[c], d, #[trigger] replacements[d]),
    decreases among.len(),
{
    let x = among.choose();
    let rest = among.remove(x);
    if rest.len() == 0 {
        assert forall|d: char| among.contains(d) implies outranks(
            x,
            replacements[x],
            d,
            #[trigger] replacements[d],
        ) by {
            if d != x {
                assert(rest.contains(d));
            }
        }
        x
    } else {
        let y = lemma_first_in_rank(replacements, rest);
        let c = if outranks(x, replacements[x], y, replacements[y]) {
            x
        } else {
            y
        };
        assert forall|d: char| among.contains(d) implies outranks(
            c,
            replacements[c],
            d,
            #[trigger] replacements[d],
        ) by {
            if d != x {
                assert(rest.contains(d));
                assert(outranks(y, replacements[y], d, replacements[d]));
            }
        }
        c
    }
}

/// Where a replacement of a finite table stands at the start of a text, one
/// of them is the one to read: a character is taken as it is only where no
/// replacement stands.
pub proof fn lemma_best_match_exists(replacements: Map<char, Seq<char>>, text: Seq<char>, d: char)
    requires
        replacements.dom().finite(),
        replacements.contains_key(d),
        occurs(text, replacements[d]),
    ensures
        is_best_match(replacements, text, best_match(replacements, text)),
{
    let stands = |c: char| occurs(text, replacements[c]);
    let among = replacements.dom().filter(stands);
    replacements.dom().lemma_len_filter(stands);
    assert(among.contains(d));
    let c = lemma_first_in_rank(replacements, among);
    assert forall|e: char|
        replacements.contains_key(e) && occurs(text, #[trigger] replacements[e]) implies outranks(
        c,
        replacements[c],
        e,
        replacements[e],
    ) by {
        assert(among.contains(e));
    }
    assert(is_best_match(replacements, text, c));
}

} // verus!
