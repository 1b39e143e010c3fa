//! The snapshot of the environment and the two ways of reading a property's
//! value out of it and of turning its variables into properties.

use crate::custom_style::{
    best_match, custom_lookup_name, is_best_match, lemma_best_match_is_unique,
    lemma_custom_round_trip, occurs, outranks, read_back, replacement_of, tells_apart,
    transliterated,
};
use crate::model::{Property, PropertyView};
use crate::replacement::{distinct_chars, ReplacementMap};
use crate::spring_style::{
    spring_lookup_name, spring_property_key, to_lowercase, to_uppercase, uppercase_of,
};
use crate::text::{chars_of, has_prefix, push_char, replace_char, text_of};
use crate::variables::{
    as_mapping, collected, distinct_names, lemma_as_mapping, lemma_collected, lemma_position_of,
    position_of, value_of, variables_of, with_prefix, Variable,
};
use vstd::prelude::*;

verus! {

/// A snapshot of the environment: the variables with their values as they
/// were when it was taken. Names are told apart exactly, capitals included.
#[derive(Debug)]
pub struct Environment {
    env: Vec<(String, String)>,
}

impl View for Environment {
    type V = Map<Seq<char>, Seq<char>>;

    closed spec fn view(&self) -> Map<Seq<char>, Seq<char>> {
        as_mapping(variables_of(self.env@))
    }
}

impl Environment {
    /// No name belongs to two variables.
    #[verifier::type_invariant]
    pub closed spec fn wf(&self) -> bool {
        distinct_names(variables_of(self.env@))
    }

    /// The variables, each name once, in the order in which the names first came in.
    pub closed spec fn variables(&self) -> Seq<Variable> {
        variables_of(self.env@)
    }

    /// The variables hold each name once, and the view is the mapping that
    /// they amount to.
    pub proof fn lemma_variables(&self)
        requires
            self.wf(),
        ensures
            distinct_names(self.variables()),
            self@ == as_mapping(self.variables()),
            self@.dom().finite(),
            self@.dom().len() == self.variables().len(),
            forall|name: Seq<char>| #[trigger]
                self@.contains_key(name) <==> position_of(self.variables(), name)
                    < self.variables().len(),
            forall|i: int|
                0 <= i < self.variables().len() ==> self@.contains_key(
                    #[trigger] self.variables()[i].0,
                ) && self@[self.variables()[i].0] == self.variables()[i].1,
    {
        lemma_as_mapping(self.variables());
    }

    /// The position of the variable called `name`, if there is one.
    fn position(env: &Vec<(String, String)>, name: &String) -> (r: Option<usize>)
        ensures
            match r {
                Some(i) => i < env@.len() && i == position_of(variables_of(env@), name@),
                None => position_of(variables_of(env@), name@) == env@.len(),
            },
    {
        proof {
            lemma_position_of(variables_of(env@), name@);
        }
        let mut i: usize = 0;
        while i < env.len()
            invariant
                i <= env@.len(),
                i <= position_of(variables_of(env@), name@) <= env@.len(),
                position_of(variables_of(env@), name@) < env@.len() ==> variables_of(
                    env@,
                )[position_of(variables_of(env@), name@)].0 == name@,
                forall|j: int|
                    0 <= j < position_of(variables_of(env@), name@) ==> variables_of(env@)[j].0
                        != name@,
            decreases env@.len() - i,
        {
            if env[i].0 == *name {
                assert(variables_of(env@)[i as int].0 == name@);
                return Some(i);
            }
            assert(variables_of(env@)[i as int].0 != name@);
            i = i + 1;
        }
        None
    }

    /// The snapshot that holds these variables, of two with the same name the later.
    pub fn new(variables: &Vec<(String, String)>) -> (environment: Environment)
        ensures
            environment.wf(),
            environment.variables() == collected(variables_of(variables@)),
            environment@ == as_mapping(variables_of(variables@)),
    {
        let ghost all = variables_of(variables@);
        let mut env: Vec<(String, String)> = Vec::new();
        let mut i: usize = 0;
        while i < variables.len()
            invariant
                i <= variables@.len(),
                all == variables_of(variables@),
                variables_of(env@) == collected(all.take(i as int)),
            decreases variables@.len() - i,
        {
            proof {
                assert(all.take(i + 1).drop_last() =~= all.take(i as int));
                assert(all.take(i + 1).last() == (
                    variables@[i as int].0@,
                    variables@[i as int].1@,
                ));
            }
            let ghost before = env@;
            let name = variables[i].0.clone();
            let value = variables[i].1.clone();
            match Self::position(&env, &name) {
                Some(at) => {
                    env.set(at, (name, value));
                    proof {
                        assert(variables_of(env@) =~= variables_of(before).update(
                            at as int,
                            (name@, value@),
                        ));
                    }
                },
                None => {
                    env.push((name, value));
                    proof {
                        assert(variables_of(env@) =~= variables_of(before).push((name@, value@)));
                    }
                },
            }
            i = i + 1;
        }
        proof {
            assert(all.take(all.len() as int) =~= all);
            lemma_collected(all);
        }
        Environment { env }
    }

    /// The value of the variable called `variable`, if there is one.
    pub fn get(&self, variable: &str) -> (r: Option<&str>)
        ensures
            match r {
                Some(value) => self@.contains_key(variable@) && self@[variable@] == value@,
                None => !self@.contains_key(variable@),
            },
    {
        proof {
            use_type_invariant(self);
            lemma_as_mapping(variables_of(self.env@));
            lemma_position_of(variables_of(self.env@), variable@);
        }
        let name = String::from_str(variable);
        match Self::position(&self.env, &name) {
            Some(i) => {
                assert(variables_of(self.env@)[i as int].1 == self.env@[i as int].1@);
                Some(self.env[i].1.as_str())
            },
            None => None,
        }
    }

    /// How many variables the snapshot holds.
    pub fn len(&self) -> (n: usize)
        ensures
            n == self.variables().len(),
            n == self@.dom().len(),
    {
        proof {
            use_type_invariant(self);
            lemma_as_mapping(variables_of(self.env@));
        }
        self.env.len()
    }

    /// The name and the value of the variable at `index` of [`Environment::variables`].
    pub fn entry(&self, index: usize) -> (r: (&str, &str))
        requires
            index < self.variables().len(),
        ensures
            (r.0@, r.1@) == self.variables()[index as int],
    {
        (self.env[index].0.as_str(), self.env[index].1.as_str())
    }

    /// The variables as pairs of name and value, in the order of [`Environment::variables`].
    pub fn entries(&self) -> (pairs: Vec<(String, String)>)
        ensures
            variables_of(pairs@) == self.variables(),
    {
        let mut pairs: Vec<(String, String)> = Vec::new();
        let mut i: usize = 0;
        while i < self.env.len()
            invariant
                i <= self.env@.len(),
                variables_of(pairs@) == variables_of(self.env@).take(i as int),
            decreases self.env@.len() - i,
        {
            let ghost before = pairs@;
            pairs.push((self.env[i].0.clone(), self.env[i].1.clone()));
            proof {
                assert(variables_of(pairs@) =~= variables_of(before).push(
                    variables_of(self.env@)[i as int],
                ));
            }
            i = i + 1;
        }
        proof {
            assert(variables_of(self.env@).take(self.env@.len() as int) =~= variables_of(
                self.env@,
            ));
        }
        pairs
    }
}

impl Clone for Environment {
    fn clone(&self) -> (environment: Environment)
        ensures
            environment.wf(),
            environment.variables() == self.variables(),
            environment@ == self@,
    {
        proof {
            use_type_invariant(self);
        }
        Environment { env: self.entries() }
    }
}

/// The views of a sequence of properties, in the same order.
pub open spec fn property_views(properties: Seq<Property>) -> Seq<PropertyView> {
    properties.map_values(|p: Property| p@)
}

/// What an optional string holds.
pub open spec fn optional_text(text: Option<&str>) -> Option<Seq<char>> {
    match text {
        Some(t) => Some(t@),
        None => None,
    }
}

/// A way of overriding properties from the environment: which variable gives
/// a key its value, and which properties the variables stand for by themselves.
pub trait Overrider {
    /// The variables of the environment that the overrider reads.
    spec fn variables(&self) -> Seq<Variable>;

    /// The name of the variable that overrides `key`.
    spec fn lookup_name(&self, key: Seq<char>, prefix: Option<Seq<char>>) -> Seq<char>;

    /// The key that `name`, the name of a variable without the prefix, stands for.
    spec fn property_key(&self, name: Seq<char>) -> Seq<char>;

    /// The value that overrides the one of `key`: that of the variable called
    /// [`Overrider::lookup_name`], if there is such a variable.
    fn resolve_substitution(&self, key: &str, prefix: Option<&str>) -> (r: Option<&str>)
        ensures
            optional_text(r) == value_of(
                self.variables(),
                self.lookup_name(key@, optional_text(prefix)),
            ),
    ;

    /// The properties that the variables stand for whose names start with
    /// `prefix`: one for each of [`with_prefix`], in that order, with the key
    /// that the rest of the name stands for and with the variable's value.
    fn generate_additions(&self, prefix: &str) -> (r: Vec<Property>)
        ensures
            r@.len() == with_prefix(self.variables(), prefix@).len(),
            forall|k: int|
                0 <= k < r@.len() ==> (#[trigger] r@[k])@ == (PropertyView {
                    key: self.property_key(with_prefix(self.variables(), prefix@)[k].0),
                    value: with_prefix(self.variables(), prefix@)[k].1,
                }),
    ;
}

/// `v[from..]` with every `a` turned into `b`.
fn replaced(v: &Vec<char>, from: usize, a: char, b: char) -> (r: Vec<char>)
    requires
        from <= v.len(),
    ensures
        r@ == replace_char(v@.skip(from as int), a, b),
{
    let mut r: Vec<char> = Vec::new();
    let mut i: usize = from;
    while i < v.len()
        invariant
            from <= i <= v.len(),
            r@ == replace_char(v@.subrange(from as int, i as int), a, b),
        decreases v.len() - i,
    {
        let c = v[i];
        let ghost before = r@;
        r.push(if c == a { b } else { c });
        proof {
            assert(r@ =~= replace_char(v@.subrange(from as int, i + 1), a, b));
        }
        i = i + 1;
    }
    proof {
        assert(v@.subrange(from as int, v@.len() as int) =~= v@.skip(from as int));
    }
    r
}

/// The style of Spring: a key is looked up in upper case with underscores, and
/// a variable stands for a key in lower case with dots.
#[derive(Debug)]
pub struct SpringStyleOverrider {
    env: Environment,
}

impl SpringStyleOverrider {
    /// The overrider that reads `env`.
    pub fn new(env: Environment) -> (overrider: SpringStyleOverrider)
        ensures
            overrider.variables() == env.variables(),
    {
        SpringStyleOverrider { env }
    }

    /// The environment that the overrider reads.
    pub fn env(&self) -> (env: &Environment)
        ensures
            env.variables() == self.variables(),
    {
        &self.env
    }
}

impl Overrider for SpringStyleOverrider {
    closed spec fn variables(&self) -> Seq<Variable> {
        self.env.variables()
    }

    open spec fn lookup_name(&self, key: Seq<char>, prefix: Option<Seq<char>>) -> Seq<char> {
        spring_lookup_name(key, prefix)
    }

    open spec fn property_key(&self, name: Seq<char>) -> Seq<char> {
        spring_property_key(name)
    }

    fn resolve_substitution(&self, key: &str, prefix: Option<&str>) -> (r: Option<&str>) {
        let chars = chars_of(key);
        let undotted = replaced(&chars, 0, '.', '_');
        let undashed = replaced(&undotted, 0, '-', '_');
        proof {
            assert(chars@.skip(0) =~= chars@);
            assert(undotted@.skip(0) =~= undotted@);
        }
        let mut name = match prefix {
            Some(p) => String::from_str(p),
            None => String::new(),
        };
        name.append(to_uppercase(text_of(&undashed).as_str()).as_str());
        self.env.get(name.as_str())
    }

    fn generate_additions(&self, prefix: &str) -> (r: Vec<Property>) {
        let prefix_chars = chars_of(prefix);
        let mut properties: Vec<Property> = Vec::new();
        let mut i: usize = 0;
        while i < self.env.len()
            invariant
                i <= self.env.variables().len(),
                prefix_chars@ == prefix@,
                properties@.len() == with_prefix(
                    self.env.variables().take(i as int),
                    prefix@,
                ).len(),
                forall|k: int|
                    0 <= k < properties@.len() ==> (#[trigger] properties@[k])@ == (PropertyView {
                        key: spring_property_key(
                            with_prefix(self.env.variables().take(i as int), prefix@)[k].0,
                        ),
                        value: with_prefix(self.env.variables().take(i as int), prefix@)[k].1,
                    }),
            decreases self.env.variables().len() - i,
        {
            let (name, value) = self.env.entry(i);
            let name_chars = chars_of(name);
            proof {
                let all = self.env.variables();
                assert(all.take(i + 1).drop_last() =~= all.take(i as int));
                assert(all.take(i + 1).last() == (name@, value@));
            }
            if has_prefix(&name_chars, &prefix_chars) {
                let dotted = replaced(&name_chars, prefix_chars.len(), '_', '.');
                let key = to_lowercase(text_of(&dotted).as_str());
                properties.push(Property::new(key.as_str(), value));
            }
            i = i + 1;
        }
        proof {
            let all = self.env.variables();
            assert(all.take(all.len() as int) =~= all);
        }
        properties
    }
}

/// In the Spring style the variable whose name is the prefix and then the key
/// in upper case, with `_` for `.` and `-`, gives the key its value.
pub proof fn lemma_spring_lookup(
    overrider: SpringStyleOverrider,
    key: Seq<char>,
    prefix: Seq<char>,
    value: Seq<char>,
)
    requires
        as_mapping(overrider.variables()).contains_pair(
            prefix + uppercase_of(replace_char(replace_char(key, '.', '_'), '-', '_')),
            value,
        ),
    ensures
        value_of(overrider.variables(), overrider.lookup_name(key, Some(prefix))) == Some(
            value,
        ),
{
}

/// Whether the candidates are the replacements that are not empty, each with
/// its character, in the order in which they are tried.
pub open spec fn are_candidates(
    candidates: Seq<(char, Vec<char>)>,
    replacements: Map<char, Seq<char>>,
) -> bool {
    &&& forall|k: int|
        0 <= k < candidates.len() ==> {
            &&& replacements.contains_key((#[trigger] candidates[k]).0)
            &&& replacements[candidates[k].0] == candidates[k].1@
            &&& candidates[k].1@.len() > 0
        }
    &&& forall|d: char|
        replacements.contains_key(d) && replacements[d].len() > 0 ==> is_candidate(candidates, d)
    &&& forall|a: int, b: int|
        0 <= a < b < candidates.len() ==> outranks(
            (#[trigger] candidates[a]).0,
            candidates[a].1@,
            (#[trigger] candidates[b]).0,
            candidates[b].1@,
        )
}

/// Whether `d` is the character of one of the candidates.
pub open spec fn is_candidate(candidates: Seq<(char, Vec<char>)>, d: char) -> bool {
    exists|k: int| 0 <= k < candidates.len() && (#[trigger] candidates[k]).0 == d
}

/// Whether `pattern`, which is not empty, stands in `text` at `at`.
fn stands_at(text: &Vec<char>, at: usize, pattern: &Vec<char>) -> (b: bool)
    requires
        at <= text.len(),
    ensures
        b == occurs(text@.skip(at as int), pattern@),
{
    if pattern.len() == 0 || pattern.len() > text.len() - at {
        return false;
    }
    let mut i: usize = 0;
    while i < pattern.len()
        invariant
            i <= pattern.len() <= text.len() - at,
            forall|j: int| 0 <= j < i ==> pattern@[j] == text@[at + j],
        decreases pattern.len() - i,
    {
        if pattern[i] != text[at + i] {
            assert(text@.skip(at as int)[i as int] == text@[at + i]);
            return false;
        }
        i = i + 1;
    }
    assert(pattern@ =~= text@.skip(at as int).subrange(0, pattern@.len() as int));
    true
}

/// The first of the candidates that stands in `text` at `at`.
fn first_candidate_at(candidates: &Vec<(char, Vec<char>)>, text: &Vec<char>, at: usize) -> (r:
    Option<usize>)
    requires
        at <= text.len(),
    ensures
        match r {
            Some(k) => k < candidates@.len() && occurs(
                text@.skip(at as int),
                candidates@[k as int].1@,
            ) && forall|j: int|
                0 <= j < k ==> !occurs(text@.skip(at as int), (#[trigger] candidates@[j]).1@),
            None => forall|j: int|
                0 <= j < candidates@.len() ==> !occurs(
                    text@.skip(at as int),
                    (#[trigger] candidates@[j]).1@,
                ),
        },
{
    let mut k: usize = 0;
    while k < candidates.len()
        invariant
            k <= candidates@.len(),
            at <= text.len(),
            forall|j: int|
                0 <= j < k ==> !occurs(text@.skip(at as int), (#[trigger] candidates@[j]).1@),
        decreases candidates@.len() - k,
    {
        if stands_at(text, at, &candidates[k].1) {
            return Some(k);
        }
        k = k + 1;
    }
    None
}

/// Where the first of the candidates stands that stands at the start of a
/// text, its character has the replacement to read there; where none of them
/// stands there, no character has.
proof fn lemma_first_candidate(
    candidates: Seq<(char, Vec<char>)>,
    replacements: Map<char, Seq<char>>,
    text: Seq<char>,
    found: Option<int>,
)
    requires
        are_candidates(candidates, replacements),
        match found {
            Some(k) => 0 <= k < candidates.len() && occurs(text, candidates[k].1@) && forall|
                j: int,
            |
                0 <= j < k ==> !occurs(text, (#[trigger] candidates[j]).1@),
            None => forall|j: int|
                0 <= j < candidates.len() ==> !occurs(text, (#[trigger] candidates[j]).1@),
        },
    ensures
        match found {
            Some(k) => is_best_match(replacements, text, candidates[k].0) && best_match(
                replacements,
                text,
            ) == candidates[k].0,
            None => forall|c: char| !is_best_match(replacements, text, c),
        },
{
    match found {
        Some(k) => {
            let c = candidates[k].0;
            assert forall|d: char|
                replacements.contains_key(d) && occurs(
                    text,
                    #[trigger] replacements[d],
                ) implies outranks(c, replacements[c], d, replacements[d]) by {
                assert(is_candidate(candidates, d));
                let j = choose|j: int| 0 <= j < candidates.len() && (#[trigger] candidates[j]).0 == d;
                assert(candidates[j].1@ == replacements[d]);
                if j < k {
                    assert(!occurs(text, candidates[j].1@));
                }
            }
            assert(is_best_match(replacements, text, c));
            lemma_best_match_is_unique(replacements, text, c, best_match(replacements, text));
        },
        None => {
            assert forall|c: char| !is_best_match(replacements, text, c) by {
                if is_best_match(replacements, text, c) {
                    assert(is_candidate(candidates, c));
                    let j = choose|j: int| 0 <= j < candidates.len() && (#[trigger] candidates[j]).0
                        == c;
                    assert(candidates[j].1@ == replacements[c]);
                    assert(!occurs(text, candidates[j].1@));
                }
            }
        },
    }
}

/// The style that the arguments spell out: a key is looked up as it is but
/// for the characters that have a replacement, and a variable stands for the
/// key that its name reads back to.
#[derive(Debug)]
pub struct CustomCaseSensitiveStyleOverrider {
    character_replacement_map: ReplacementMap,
    environment: Environment,
    candidates: Vec<(char, Vec<char>)>,
}

impl CustomCaseSensitiveStyleOverrider {
    /// The candidates are the replacements that are not empty, in the order in
    /// which they are tried.
    #[verifier::type_invariant]
    pub closed spec fn wf(&self) -> bool {
        are_candidates(self.candidates@, self.character_replacement_map@)
    }

    /// The replacement of each character that has one.
    pub closed spec fn replacements(&self) -> Map<char, Seq<char>> {
        self.character_replacement_map@
    }

    /// Where the replacement of `c`, `length` characters long, goes among the
    /// candidates: before the first that it is tried before.
    fn place_of(candidates: &Vec<(char, Vec<char>)>, c: char, length: usize) -> (at: usize)
        ensures
            at <= candidates@.len(),
            forall|j: int|
                0 <= j < at ==> (#[trigger] candidates@[j]).1@.len() > length || (candidates@[j].1@.len()
                    == length && candidates@[j].0 <= c),
            at < candidates@.len() ==> !(candidates@[at as int].1@.len() > length || (
            candidates@[at as int].1@.len() == length && candidates@[at as int].0 <= c)),
    {
        let mut at: usize = 0;
        while at < candidates.len()
            invariant
                at <= candidates@.len(),
                forall|j: int|
                    0 <= j < at ==> (#[trigger] candidates@[j]).1@.len() > length || (
                    candidates@[j].1@.len() == length && candidates@[j].0 <= c),
            decreases candidates@.len() - at,
        {
            let other = candidates[at].1.len();
            if !(other > length || (other == length && candidates[at].0 <= c)) {
                return at;
            }
            at = at + 1;
        }
        at
    }

    /// The overrider that reads `environment` with these replacements.
    pub fn new(character_replacement_map: ReplacementMap, environment: Environment) -> (overrider:
        CustomCaseSensitiveStyleOverrider)
        ensures
            overrider.wf(),
            overrider.replacements() == character_replacement_map@,
            overrider.variables() == environment.variables(),
    {
        proof {
            use_type_invariant(&character_replacement_map);
            character_replacement_map.lemma_pairs();
        }
        let ghost pairs = character_replacement_map.pairs();
        let ghost replacements = character_replacement_map@;
        let mut candidates: Vec<(char, Vec<char>)> = Vec::new();
        let mut i: usize = 0;
        while i < character_replacement_map.len()
            invariant
                i <= pairs.len(),
                pairs == character_replacement_map.pairs(),
                replacements == character_replacement_map@,
                distinct_chars(pairs),
                forall|j: int|
                    0 <= j < pairs.len() ==> replacements.contains_key((#[trigger] pairs[j]).0)
                        && replacements[pairs[j].0] == pairs[j].1@,
                forall|k: int|
                    0 <= k < candidates@.len() ==> {
                        &&& replacements.contains_key((#[trigger] candidates@[k]).0)
                        &&& replacements[candidates@[k].0] == candidates@[k].1@
                        &&& candidates@[k].1@.len() > 0
                    },
                forall|j: int|
                    0 <= j < i && (#[trigger] pairs[j]).1@.len() > 0 ==> is_candidate(
                        candidates@,
                        pairs[j].0,
                    ),
                forall|a: int, b: int|
                    0 <= a < b < candidates@.len() ==> outranks(
                        (#[trigger] candidates@[a]).0,
                        candidates@[a].1@,
                        (#[trigger] candidates@[b]).0,
                        candidates@[b].1@,
                    ),
            decreases pairs.len() - i,
        {
            let (c, replacement) = character_replacement_map.entry(i);
            let chars = chars_of(replacement.as_str());
            if chars.len() > 0 {
                let at = Self::place_of(&candidates, c, chars.len());
                let ghost before = candidates@;
                candidates.insert(at, (c, chars));
                proof {
                    let after = candidates@;
                    assert(after[at as int].0 == c);
                    assert forall|j: int|
                        0 <= j < i + 1 && (#[trigger] pairs[j]).1@.len() > 0 implies is_candidate(
                        after,
                        pairs[j].0,
                    ) by {
                        if j < i {
                            assert(is_candidate(before, pairs[j].0));
                            let k = choose|k: int|
                                0 <= k < before.len() && (#[trigger] before[k]).0 == pairs[j].0;
                            if k < at {
                                assert(after[k].0 == pairs[j].0);
                            } else {
                                assert(after[k + 1].0 == pairs[j].0);
                            }
                        }
                    }
                    assert forall|a: int, b: int| 0 <= a < b < after.len() implies outranks(
                        (#[trigger] after[a]).0,
                        after[a].1@,
                        (#[trigger] after[b]).0,
                        after[b].1@,
                    ) by {
                        if b < at {
                            assert(after[a] == before[a] && after[b] == before[b]);
                        } else if b == at {
                            assert(after[a] == before[a]);
                        } else if a < at {
                            assert(after[a] == before[a] && after[b] == before[b - 1]);
                        } else if a == at {
                            assert(after[b] == before[b - 1]);
                            assert(before[at as int] == before[at as int]);
                            if b - 1 > at {
                                assert(outranks(
                                    before[at as int].0,
                                    before[at as int].1@,
                                    before[b - 1].0,
                                    before[b - 1].1@,
                                ));
                            }
                        } else {
                            assert(after[a] == before[a - 1] && after[b] == before[b - 1]);
                        }
                    }
                    assert forall|k: int| 0 <= k < after.len() implies {
                        &&& replacements.contains_key((#[trigger] after[k]).0)
                        &&& replacements[after[k].0] == after[k].1@
                        &&& after[k].1@.len() > 0
                    } by {
                        if k < at {
                            assert(after[k] == before[k]);
                        } else if k > at {
                            assert(after[k] == before[k - 1]);
                        } else {
                            assert(pairs[i as int].0 == c);
                        }
                    }
                }
            }
            i = i + 1;
        }
        proof {
            assert forall|d: char|
                replacements.contains_key(d) && replacements[d].len() > 0 implies is_candidate(
                candidates@,
                d,
            ) by {
                let j = choose|j: int| 0 <= j < pairs.len() && #[trigger] pairs[j].0 == d;
                assert(replacements[pairs[j].0] == pairs[j].1@);
            }
        }
        CustomCaseSensitiveStyleOverrider { character_replacement_map, environment, candidates }
    }

    /// The replacements that the overrider works with.
    pub fn character_replacement_map(&self) -> (map: &ReplacementMap)
        ensures
            map@ == self.replacements(),
    {
        &self.character_replacement_map
    }

    /// The environment that the overrider reads.
    pub fn environment(&self) -> (environment: &Environment)
        ensures
            environment.variables() == self.variables(),
    {
        &self.environment
    }

    /// What stands for `c` in the name of a variable.
    pub fn process_character(&self, c: char) -> (s: String)
        ensures
            s@ == replacement_of(self.replacements(), c),
    {
        match self.character_replacement_map.get(c) {
            None => {
                let mut s = String::new();
                push_char(&mut s, c);
                s
            },
            Some(s) => s.clone(),
        }
    }

    /// The key that `text[from..]` stands for.
    fn read_name(&self, text: &Vec<char>, from: usize) -> (key: String)
        requires
            from <= text.len(),
        ensures
            key@ == read_back(self.replacements(), text@.skip(from as int)),
    {
        proof {
            use_type_invariant(self);
        }
        let ghost replacements = self.replacements();
        let mut key = String::new();
        let mut at: usize = from;
        while at < text.len()
            invariant
                from <= at <= text.len(),
                replacements == self.replacements(),
                are_candidates(self.candidates@, replacements),
                key@ + read_back(replacements, text@.skip(at as int)) == read_back(
                    replacements,
                    text@.skip(from as int),
                ),
            decreases text.len() - at,
        {
            let ghost rest = text@.skip(at as int);
            let found = first_candidate_at(&self.candidates, text, at);
            proof {
                lemma_first_candidate(
                    self.candidates@,
                    replacements,
                    rest,
                    match found {
                        Some(k) => Some(k as int),
                        None => None,
                    },
                );
            }
            match found {
                Some(k) => {
                    let length = self.candidates[k].1.len();
                    proof {
                        assert(rest.skip(length as int) =~= text@.skip(at + length));
                    }
                    push_char(&mut key, self.candidates[k].0);
                    at = at + length;
                },
                None => {
                    proof {
                        assert(rest[0] == text@[at as int]);
                        assert(rest.skip(1) =~= text@.skip(at + 1));
                    }
                    push_char(&mut key, text[at]);
                    at = at + 1;
                },
            }
        }
        proof {
            assert(text@.skip(at as int).len() == 0);
            assert(key@ + Seq::<char>::empty() =~= key@);
        }
        key
    }
}

impl Overrider for CustomCaseSensitiveStyleOverrider {
    closed spec fn variables(&self) -> Seq<Variable> {
        self.environment.variables()
    }

    open spec fn lookup_name(&self, key: Seq<char>, prefix: Option<Seq<char>>) -> Seq<char> {
        custom_lookup_name(self.replacements(), key, prefix)
    }

    open spec fn property_key(&self, name: Seq<char>) -> Seq<char> {
        read_back(self.replacements(), name)
    }

    fn resolve_substitution(&self, key: &str, prefix: Option<&str>) -> (r: Option<&str>) {
        let mut transformed_key = match prefix {
            Some(p) => String::from_str(p),
            None => String::new(),
        };
        let ghost start = transformed_key@;
        let chars = chars_of(key);
        let mut i: usize = 0;
        while i < chars.len()
            invariant
                i <= chars.len(),
                transformed_key@ == start + transliterated(
                    self.replacements(),
                    chars@.take(i as int),
                ),
            decreases chars.len() - i,
        {
            proof {
                assert(chars@.take(i + 1).drop_last() =~= chars@.take(i as int));
            }
            transformed_key.append(self.process_character(chars[i]).as_str());
            i = i + 1;
        }
        proof {
            assert(chars@.take(chars.len() as int) =~= chars@);
        }
        self.environment.get(transformed_key.as_str())
    }

    fn generate_additions(&self, prefix: &str) -> (r: Vec<Property>) {
        let prefix_chars = chars_of(prefix);
        let mut properties: Vec<Property> = Vec::new();
        let mut i: usize = 0;
        while i < self.environment.len()
            invariant
                i <= self.environment.variables().len(),
                prefix_chars@ == prefix@,
                properties@.len() == with_prefix(
                    self.environment.variables().take(i as int),
                    prefix@,
                ).len(),
                forall|k: int|
                    0 <= k < properties@.len() ==> (#[trigger] properties@[k])@ == (PropertyView {
                        key: read_back(
                            self.replacements(),
                            with_prefix(self.environment.variables().take(i as int), prefix@)[k].0,
                        ),
                        value: with_prefix(
                            self.environment.variables().take(i as int),
                            prefix@,
                        )[k].1,
                    }),
            decreases self.environment.variables().len() - i,
        {
            let (name, value) = self.environment.entry(i);
            let name_chars = chars_of(name);
            proof {
                let all = self.environment.variables();
                assert(all.take(i + 1).drop_last() =~= all.take(i as int));
                assert(all.take(i + 1).last() == (name@, value@));
            }
            if has_prefix(&name_chars, &prefix_chars) {
                let replaced_key = self.read_name(&name_chars, prefix_chars.len());
                properties.push(Property::new(replaced_key.as_str(), value));
            }
            i = i + 1;
        }
        proof {
            let all = self.environment.variables();
            assert(all.take(all.len() as int) =~= all);
        }
        properties
    }
}

/// In the custom style, where the replacements tell the characters of a key
/// apart, the name that the key is looked up under starts with the prefix and
/// stands, behind it, for that key again.
pub proof fn lemma_custom_name_stands_for_its_key(
    overrider: CustomCaseSensitiveStyleOverrider,
    key: Seq<char>,
    prefix: Seq<char>,
)
    requires
        tells_apart(overrider.replacements(), key),
    ensures
        prefix.is_prefix_of(overrider.lookup_name(key, Some(prefix))),
        overrider.property_key(overrider.lookup_name(key, Some(prefix)).skip(prefix.len() as int))
            == key,
{
    let name = overrider.lookup_name(key, Some(prefix));
    let rest = transliterated(overrider.replacements(), key);
    assert(name =~= prefix + rest);
    assert(prefix =~= name.subrange(0, prefix.len() as int));
    assert(name.skip(prefix.len() as int) =~= rest);
    lemma_custom_round_trip(overrider.replacements(), key);
}

} // verus!
