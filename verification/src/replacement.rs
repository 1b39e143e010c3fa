//! The table of a custom transliteration: for some characters, the string
//! that stands for each of them in the name of an environment variable.

use vstd::prelude::*;

verus! {

/// The mapping that a sequence of pairs amounts to, a later pair replacing an
/// earlier one for the same character.
pub open spec fn pairs_as_map(pairs: Seq<(char, String)>) -> Map<char, Seq<char>>
    decreases pairs.len(),
{
    if pairs.len() == 0 {
        Map::empty()
    } else {
        pairs_as_map(pairs.drop_last()).insert(pairs.last().0, pairs.last().1@)
    }
}

/// Whether no character stands first in two of the pairs.
pub open spec fn distinct_chars(pairs: Seq<(char, String)>) -> bool {
    forall|i: int, j: int| 0 <= i < j < pairs.len() ==> pairs[i].0 != pairs[j].0
}

/// The keys of [`pairs_as_map`] are the characters of the pairs, and where no
/// character occurs twice each pair is an entry of the mapping.
pub proof fn lemma_pairs_as_map(pairs: Seq<(char, String)>)
    ensures
        forall|c: char|
            pairs_as_map(pairs).contains_key(c) <==> exists|i: int|
                0 <= i < pairs.len() && #[trigger] pairs[i].0 == c,
        distinct_chars(pairs) ==> forall|i: int|
            0 <= i < pairs.len() ==> pairs_as_map(pairs)[#[trigger] pairs[i].0] == pairs[i].1@,
        pairs_as_map(pairs).dom().finite(),
        distinct_chars(pairs) ==> pairs_as_map(pairs).dom().len() == pairs.len(),
    decreases pairs.len(),
{
    if pairs.len() > 0 {
        let head = pairs.drop_last();
        lemma_pairs_as_map(head);
        if distinct_chars(pairs) {
            assert(!pairs_as_map(head).contains_key(pairs.last().0)) by {
                if pairs_as_map(head).contains_key(pairs.last().0) {
                    let i = choose|i: int|
                        0 <= i < head.len() && #[trigger] head[i].0 == pairs.last().0;
                    assert(pairs[i].0 == pairs[pairs.len() - 1].0);
                }
            }
        }
        assert forall|c: char|
            pairs_as_map(pairs).contains_key(c) <==> exists|i: int|
                0 <= i < pairs.len() && #[trigger] pairs[i].0 == c by {
            if pairs_as_map(pairs).contains_key(c) {
                if c == pairs.last().0 {
                    assert(pairs[pairs.len() - 1].0 == c);
                } else {
                    let i = choose|i: int| 0 <= i < head.len() && #[trigger] head[i].0 == c;
                    assert(pairs[i].0 == c);
                }
            }
            if exists|i: int| 0 <= i < pairs.len() && #[trigger] pairs[i].0 == c {
                let i = choose|i: int| 0 <= i < pairs.len() && #[trigger] pairs[i].0 == c;
                if i < head.len() {
                    assert(head[i].0 == c);
                }
            }
        }
        if distinct_chars(pairs) {
            assert forall|i: int| 0 <= i < pairs.len() implies pairs_as_map(pairs)[#[trigger] pairs[i].0]
                == pairs[i].1@ by {
                if i < head.len() {
                    assert(head[i] == pairs[i]);
                    assert(pairs[i].0 != pairs[pairs.len() - 1].0);
                }
            }
        }
    }
}

/// Replacing the string of a pair replaces the entry of its character.
pub proof fn lemma_pairs_as_map_update(pairs: Seq<(char, String)>, i: int, s: String)
    requires
        distinct_chars(pairs),
        0 <= i < pairs.len(),
    ensures
        distinct_chars(pairs.update(i, (pairs[i].0, s))),
        pairs_as_map(pairs.update(i, (pairs[i].0, s))) == pairs_as_map(pairs).insert(
            pairs[i].0,
            s@,
        ),
{
    let c = pairs[i].0;
    let after = pairs.update(i, (c, s));
    lemma_pairs_as_map(pairs);
    lemma_pairs_as_map(after);
    let m = pairs_as_map(pairs).insert(c, s@);
    assert forall|k: char| pairs_as_map(after).contains_key(k) <==> m.contains_key(k) by {
        if pairs_as_map(after).contains_key(k) {
            let j = choose|j: int| 0 <= j < after.len() && #[trigger] after[j].0 == k;
            assert(pairs[j].0 == k);
        }
        if m.contains_key(k) && k != c {
            let j = choose|j: int| 0 <= j < pairs.len() && #[trigger] pairs[j].0 == k;
            assert(after[j].0 == k);
        }
        if k == c {
            assert(after[i].0 == c);
        }
    }
    assert forall|k: char| pairs_as_map(after).contains_key(k) implies pairs_as_map(after)[k]
        == m[k] by {
        let j = choose|j: int| 0 <= j < after.len() && #[trigger] after[j].0 == k;
        assert(pairs_as_map(after)[after[j].0] == after[j].1@);
        if j != i {
            assert(pairs_as_map(pairs)[pairs[j].0] == pairs[j].1@);
        }
    }
    assert(pairs_as_map(after) =~= m);
}

/// A mapping from single characters to their replacement strings.
#[derive(Debug)]
pub struct ReplacementMap {
    entries: Vec<(char, String)>,
}

impl View for ReplacementMap {
    type V = Map<char, Seq<char>>;

    closed spec fn view(&self) -> Map<char, Seq<char>> {
        pairs_as_map(self.entries@)
    }
}

impl ReplacementMap {
    /// No character has two entries.
    #[verifier::type_invariant]
    pub closed spec fn wf(&self) -> bool {
        distinct_chars(self.entries@)
    }

    /// The entries in the order in which their characters first came in.
    pub closed spec fn pairs(&self) -> Seq<(char, String)> {
        self.entries@
    }

    /// The entries make up the mapping, each character once.
    pub proof fn lemma_pairs(&self)
        requires
            self.wf(),
        ensures
            distinct_chars(self.pairs()),
            self@ == pairs_as_map(self.pairs()),
            self@.dom().finite(),
            self@.dom().len() == self.pairs().len(),
            forall|c: char|
                self@.contains_key(c) <==> exists|i: int|
                    0 <= i < self.pairs().len() && #[trigger] self.pairs()[i].0 == c,
            forall|i: int|
                0 <= i < self.pairs().len() ==> self@[#[trigger] self.pairs()[i].0]
                    == self.pairs()[i].1@,
    {
        lemma_pairs_as_map(self.entries@);
    }

    /// The mapping without entries.
    pub fn new() -> (m: ReplacementMap)
        ensures
            m.wf(),
            m@ == Map::<char, Seq<char>>::empty(),
    {
        ReplacementMap { entries: Vec::new() }
    }

    /// The position of the entry for `c`, if it has one.
    fn position(entries: &Vec<(char, String)>, c: char) -> (r: Option<usize>)
        ensures
            match r {
                Some(i) => i < entries@.len() && entries@[i as int].0 == c,
                None => forall|i: int| 0 <= i < entries@.len() ==> entries@[i].0 != c,
            },
    {
        let mut i: usize = 0;
        while i < entries.len()
            invariant
                i <= entries@.len(),
                forall|j: int| 0 <= j < i ==> entries@[j].0 != c,
            decreases entries@.len() - i,
        {
            if entries[i].0 == c {
                return Some(i);
            }
            i = i + 1;
        }
        None
    }

    /// This mapping with `c` mapped to `replacement`, in place of what it was
    /// mapped to before.
    pub fn with(self, c: char, replacement: String) -> (m: ReplacementMap)
        ensures
            m.wf(),
            m@ == self@.insert(c, replacement@),
    {
        proof {
            use_type_invariant(&self);
        }
        let mut entries = self.entries;
        match Self::position(&entries, c) {
            Some(i) => {
                proof {
                    lemma_pairs_as_map_update(entries@, i as int, replacement);
                }
                entries.set(i, (c, replacement));
            },
            None => {
                proof {
                    assert(entries@.push((c, replacement)).drop_last() =~= entries@);
                }
                entries.push((c, replacement));
            },
        }
        ReplacementMap { entries }
    }

    /// The mapping that the pairs amount to, a later pair replacing an earlier
    /// one for the same character.
    pub fn from_pairs(pairs: &Vec<(char, String)>) -> (m: ReplacementMap)
        ensures
            m.wf(),
            m@ == pairs_as_map(pairs@),
    {
        let mut m = ReplacementMap::new();
        let mut i: usize = 0;
        while i < pairs.len()
            invariant
                i <= pairs@.len(),
                m.wf(),
                m@ == pairs_as_map(pairs@.take(i as int)),
            decreases pairs@.len() - i,
        {
            proof {
                assert(pairs@.take(i + 1).drop_last() =~= pairs@.take(i as int));
            }
            m = m.with(pairs[i].0, pairs[i].1.clone());
            i = i + 1;
        }
        proof {
            assert(pairs@.take(pairs@.len() as int) =~= pairs@);
        }
        m
    }

    /// What `c` is mapped to, if it is mapped.
    pub fn get(&self, c: char) -> (r: Option<&String>)
        ensures
            match r {
                Some(s) => self@.contains_key(c) && self@[c] == s@,
                None => !self@.contains_key(c),
            },
    {
        proof {
            use_type_invariant(self);
            lemma_pairs_as_map(self.entries@);
        }
        match Self::position(&self.entries, c) {
            Some(i) => Some(&self.entries[i].1),
            None => None,
        }
    }

    /// How many characters are mapped.
    pub fn len(&self) -> (n: usize)
        ensures
            n == self.pairs().len(),
            n == self@.dom().len(),
    {
        proof {
            use_type_invariant(self);
            lemma_pairs_as_map(self.entries@);
        }
        self.entries.len()
    }

    /// Whether no character is mapped.
    pub fn is_empty(&self) -> (b: bool)
        ensures
            b == (self@ == Map::<char, Seq<char>>::empty()),
    {
        proof {
            lemma_pairs_as_map(self.entries@);
            if self.entries@.len() > 0 {
                assert(self@.contains_key(self.entries@[0].0));
            }
        }
        self.entries.len() == 0
    }

    /// The entry at `index` of [`ReplacementMap::pairs`].
    pub fn entry(&self, index: usize) -> (r: (char, &String))
        requires
            index < self.pairs().len(),
        ensures
            r.0 == self.pairs()[index as int].0,
            *r.1 == self.pairs()[index as int].1,
    {
        (self.entries[index].0, &self.entries[index].1)
    }

    /// Whether every entry of `self` is an entry of `other`.
    fn within(&self, other: &ReplacementMap) -> (b: bool)
        ensures
            b == forall|c: char| #[trigger]
                self@.contains_key(c) ==> other@.contains_key(c) && other@[c] == self@[c],
    {
        proof {
            use_type_invariant(self);
            lemma_pairs_as_map(self.entries@);
        }
        let mut i: usize = 0;
        while i < self.entries.len()
            invariant
                i <= self.entries@.len(),
                distinct_chars(self.entries@),
                forall|j: int|
                    0 <= j < i ==> other@.contains_key(#[trigger] self.entries@[j].0)
                        && other@[self.entries@[j].0] == self.entries@[j].1@,
                forall|c: char|
                    pairs_as_map(self.entries@).contains_key(c) <==> exists|i: int|
                        0 <= i < self.entries@.len() && #[trigger] self.entries@[i].0 == c,
                forall|i: int|
                    0 <= i < self.entries@.len() ==> pairs_as_map(
                        self.entries@,
                    )[#[trigger] self.entries@[i].0] == self.entries@[i].1@,
            decreases self.entries@.len() - i,
        {
            let found = match other.get(self.entries[i].0) {
                Some(s) => *s == self.entries[i].1,
                None => false,
            };
            if !found {
                assert(self@.contains_key(self.entries@[i as int].0));
                return false;
            }
            i = i + 1;
        }
        assert forall|c: char| self@.contains_key(c) implies other@.contains_key(c) && other@[c]
            == self@[c] by {
            let j = choose|j: int| 0 <= j < self.entries@.len() && #[trigger] self.entries@[j].0 == c;
            assert(other@.contains_key(self.entries@[j].0));
        }
        true
    }
}

impl Clone for ReplacementMap {
    fn clone(&self) -> (m: ReplacementMap)
        ensures
            m.wf(),
            m@ == self@,
            m.pairs() == self.pairs(),
    {
        proof {
            use_type_invariant(self);
        }
        let mut entries: Vec<(char, String)> = Vec::new();
        let mut i: usize = 0;
        while i < self.entries.len()
            invariant
                i <= self.entries@.len(),
                entries@ == self.entries@.take(i as int),
            decreases self.entries@.len() - i,
        {
            entries.push((self.entries[i].0, self.entries[i].1.clone()));
            i = i + 1;
        }
        proof {
            assert(self.entries@.take(self.entries@.len() as int) =~= self.entries@);
        }
        ReplacementMap { entries }
    }
}

impl PartialEq for ReplacementMap {
    /// Two mappings are equal where they map the same characters to the same strings.
    fn eq(&self, other: &ReplacementMap) -> (r: bool) {
        let forth = self.within(other);
        let back = other.within(self);
        proof {
            if forth && back {
                assert forall|c: char| self@.dom().contains(c) == other@.dom().contains(c) by {
                    if self@.contains_key(c) {
                        assert(other@.contains_key(c));
                    }
                    if other@.contains_key(c) {
                        assert(self@.contains_key(c));
                    }
                }
                assert(self@ =~= other@);
            }
        }
        forth && back
    }
}

impl vstd::std_specs::cmp::PartialEqSpecImpl for ReplacementMap {
    open spec fn obeys_eq_spec() -> bool {
        true
    }

    open spec fn eq_spec(&self, other: &ReplacementMap) -> bool {
        self@ == other@
    }
}

} // verus!
