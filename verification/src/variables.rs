//! The variables of an environment as a sequence of names with their values:
//! the mapping that they amount to, how they are put together, and which of
//! them start with a prefix.

use vstd::prelude::*;

verus! {

/// A variable: its name and its value.
pub type Variable = (Seq<char>, Seq<char>);

/// What a sequence of pairs of strings holds.
pub open spec fn variables_of(pairs: Seq<(String, String)>) -> Seq<Variable> {
    pairs.map_values(|p: (String, String)| (p.0@, p.1@))
}

/// Whether no name belongs to two of the variables.
pub open spec fn distinct_names(variables: Seq<Variable>) -> bool {
    forall|i: int, j: int| 0 <= i < j < variables.len() ==> variables[i].0 != variables[j].0
}

/// The mapping from names to values that the variables amount to, a later
/// variable replacing an earlier one of the same name.
pub open spec fn as_mapping(variables: Seq<Variable>) -> Map<Seq<char>, Seq<char>>
    decreases variables.len(),
{
    if variables.len() == 0 {
        Map::empty()
    } else {
        as_mapping(variables.drop_last()).insert(variables.last().0, variables.last().1)
    }
}

/// The position of the variable called `name`, or the number of variables
/// where none is called so.
pub open spec fn position_of(variables: Seq<Variable>, name: Seq<char>) -> int
    decreases variables.len(),
{
    if variables.len() == 0 || variables.first().0 == name {
        0
    } else {
        1 + position_of(variables.drop_first(), name)
    }
}

/// The variables with `variable` put among them: in the place of the one of
/// the same name, or last where there is none.
pub open spec fn put(variables: Seq<Variable>, variable: Variable) -> Seq<Variable> {
    let at = position_of(variables, variable.0);
    if at < variables.len() {
        variables.update(at, variable)
    } else {
        variables.push(variable)
    }
}

/// The variables put together one after the other: each name once, where it
/// first stood, with the value that came last.
pub open spec fn collected(variables: Seq<Variable>) -> Seq<Variable>
    decreases variables.len(),
{
    if variables.len() == 0 {
        Seq::empty()
    } else {
        put(collected(variables.drop_last()), variables.last())
    }
}

/// [`position_of`] is the first position that holds the name.
pub proof fn lemma_position_of(variables: Seq<Variable>, name: Seq<char>)
    ensures
        0 <= position_of(variables, name) <= variables.len(),
        position_of(variables, name) < variables.len() ==> variables[position_of(
            variables,
            name,
        )].0 == name,
        forall|j: int| 0 <= j < position_of(variables, name) ==> variables[j].0 != name,
    decreases variables.len(),
{
    if variables.len() == 0 || variables.first().0 == name {
    } else {
        let rest = variables.drop_first();
        lemma_position_of(rest, name);
        let k = position_of(rest, name);
        assert forall|j: int| 0 <= j < k + 1 implies variables[j].0 != name by {
            if j > 0 {
                assert(variables[j] == rest[j - 1]);
            }
        }
        if k < rest.len() {
            assert(variables[k + 1] == rest[k]);
        }
    }
}

/// The mapping holds a name exactly where a variable is called so, and where
/// no name occurs twice each variable is an entry of the mapping.
pub proof fn lemma_as_mapping(variables: Seq<Variable>)
    ensures
        forall|name: Seq<char>| #[trigger]
            as_mapping(variables).contains_key(name) <==> position_of(variables, name)
                < variables.len(),
        forall|i: int|
            0 <= i < variables.len() ==> as_mapping(variables).contains_key(
                #[trigger] variables[i].0,
            ),
        distinct_names(variables) ==> forall|i: int|
            0 <= i < variables.len() ==> as_mapping(variables)[#[trigger] variables[i].0]
                == variables[i].1,
        as_mapping(variables).dom().finite(),
        distinct_names(variables) ==> as_mapping(variables).dom().len() == variables.len(),
    decreases variables.len(),
{
    if variables.len() > 0 {
        let head = variables.drop_last();
        let last = variables.last();
        lemma_as_mapping(head);
        if distinct_names(variables) {
            assert(!as_mapping(head).contains_key(last.0)) by {
                lemma_position_of(head, last.0);
                let p = position_of(head, last.0);
                if p < head.len() {
                    assert(variables[p].0 == variables[variables.len() - 1].0);
                }
            }
        }
        assert forall|name: Seq<char>| #[trigger]
            as_mapping(variables).contains_key(name) <==> position_of(variables, name)
                < variables.len() by {
            lemma_position_of(variables, name);
            lemma_position_of(head, name);
            let p = position_of(variables, name);
            let q = position_of(head, name);
            if as_mapping(variables).contains_key(name) && p == variables.len() {
                if name == last.0 {
                    assert(variables[variables.len() - 1].0 == name);
                } else {
                    assert(as_mapping(head).contains_key(name));
                    assert(variables[q].0 == head[q].0);
                }
            }
            if p < variables.len() && name != last.0 {
                assert(head[p].0 == variables[p].0);
                if q == head.len() {
                    assert(head[p].0 != name);
                }
                assert(as_mapping(head).contains_key(name));
            }
        }
        assert forall|i: int| 0 <= i < variables.len() implies as_mapping(
            variables,
        ).contains_key(#[trigger] variables[i].0) by {
            if i < head.len() {
                assert(head[i] == variables[i]);
            }
        }
        if distinct_names(variables) {
            assert forall|i: int| 0 <= i < variables.len() implies as_mapping(
                variables,
            )[#[trigger] variables[i].0] == variables[i].1 by {
                if i < head.len() {
                    assert(head[i] == variables[i]);
                    assert(variables[i].0 != variables[variables.len() - 1].0);
                }
            }
        }
    }
}

/// Putting a variable among others whose names differ keeps the names apart
/// and sets the entry of its name in the mapping.
pub proof fn lemma_put(variables: Seq<Variable>, variable: Variable)
    requires
        distinct_names(variables),
    ensures
        distinct_names(put(variables, variable)),
        as_mapping(put(variables, variable)) == as_mapping(variables).insert(
            variable.0,
            variable.1,
        ),
{
    let at = position_of(variables, variable.0);
    let after = put(variables, variable);
    lemma_position_of(variables, variable.0);
    if at < variables.len() {
        lemma_as_mapping(variables);
        lemma_as_mapping(after);
        let m = as_mapping(variables).insert(variable.0, variable.1);
        assert forall|k: Seq<char>| as_mapping(after).contains_key(k) <==> m.contains_key(k) by {
            lemma_position_of(variables, k);
            lemma_position_of(after, k);
            let p = position_of(variables, k);
            let q = position_of(after, k);
            if k == variable.0 {
                assert(after[at].0 == k);
            } else {
                if q < after.len() {
                    assert(variables[q].0 == after[q].0);
                    if p == variables.len() {
                        assert(variables[q].0 != k);
                    }
                }
                if p < variables.len() {
                    assert(after[p].0 == variables[p].0);
                    if q == after.len() {
                        assert(after[p].0 != k);
                    }
                }
            }
        }
        assert forall|k: Seq<char>| as_mapping(after).contains_key(k) implies as_mapping(
            after,
        )[k] == m[k] by {
            lemma_position_of(after, k);
            let j = position_of(after, k);
            assert(as_mapping(after)[after[j].0] == after[j].1);
            if j != at {
                assert(as_mapping(variables)[variables[j].0] == variables[j].1);
            }
        }
        assert(as_mapping(after) =~= m);
    } else {
        assert(after.drop_last() =~= variables);
    }
}

/// [`collected`] holds each name once and amounts to the same mapping as the
/// variables it was made from.
pub proof fn lemma_collected(variables: Seq<Variable>)
    ensures
        distinct_names(collected(variables)),
        as_mapping(collected(variables)) == as_mapping(variables),
    decreases variables.len(),
{
    if variables.len() > 0 {
        lemma_collected(variables.drop_last());
        lemma_put(collected(variables.drop_last()), variables.last());
    }
}

/// The value of the variable called `name`, if there is one.
pub open spec fn value_of(variables: Seq<Variable>, name: Seq<char>) -> Option<Seq<char>> {
    if as_mapping(variables).contains_key(name) {
        Some(as_mapping(variables)[name])
    } else {
        None
    }
}

/// Those of the variables whose names start with `prefix`, in their order,
/// each name without the prefix at its start.
pub open spec fn with_prefix(variables: Seq<Variable>, prefix: Seq<char>) -> Seq<Variable>
    decreases variables.len(),
{
    if variables.len() == 0 {
        Seq::empty()
    } else {
        let before = with_prefix(variables.drop_last(), prefix);
        let (name, value) = variables.last();
        if prefix.is_prefix_of(name) {
            before.push((name.skip(prefix.len() as int), value))
        } else {
            before
        }
    }
}

/// Whether `entry` is the variable at `i`, whose name starts with `prefix`,
/// without the prefix at the start of its name.
pub open spec fn is_stripped(
    variables: Seq<Variable>,
    prefix: Seq<char>,
    i: int,
    entry: Variable,
) -> bool {
    &&& 0 <= i < variables.len()
    &&& prefix.is_prefix_of(variables[i].0)
    &&& entry == (variables[i].0.skip(prefix.len() as int), variables[i].1)
}

/// Whether `entry` comes from one of the variables whose names start with `prefix`.
pub open spec fn has_source(variables: Seq<Variable>, prefix: Seq<char>, entry: Variable) -> bool {
    exists|i: int| is_stripped(variables, prefix, i, entry)
}

/// Each of [`with_prefix`] comes from a variable whose name starts with the
/// prefix, and each such variable is among them.
pub proof fn lemma_with_prefix(variables: Seq<Variable>, prefix: Seq<char>)
    ensures
        forall|k: int|
            0 <= k < with_prefix(variables, prefix).len() ==> has_source(
                variables,
                prefix,
                #[trigger] with_prefix(variables, prefix)[k],
            ),
        forall|i: int, entry: Variable|
            is_stripped(variables, prefix, i, entry) ==> with_prefix(variables, prefix).contains(
                entry,
            ),
    decreases variables.len(),
{
    if variables.len() > 0 {
        let head = variables.drop_last();
        let all = with_prefix(variables, prefix);
        let before = with_prefix(head, prefix);
        lemma_with_prefix(head, prefix);
        assert forall|k: int| 0 <= k < all.len() implies has_source(
            variables,
            prefix,
            #[trigger] all[k],
        ) by {
            if k < before.len() {
                assert(all[k] == before[k]);
                assert(has_source(head, prefix, before[k]));
                let i = choose|i: int| is_stripped(head, prefix, i, before[k]);
                assert(variables[i] == head[i]);
                assert(is_stripped(variables, prefix, i, all[k]));
            } else {
                assert(is_stripped(variables, prefix, variables.len() - 1, all[k]));
            }
        }
        assert forall|i: int, entry: Variable|
            is_stripped(variables, prefix, i, entry) implies all.contains(entry) by {
            if i < head.len() {
                assert(variables[i] == head[i]);
                assert(is_stripped(head, prefix, i, entry));
                assert(before.contains(entry));
                let k = choose|k: int| 0 <= k < before.len() && before[k] == entry;
                assert(all[k] == entry);
            } else {
                assert(all[all.len() - 1] == entry);
            }
        }
    }
}

} // verus!
