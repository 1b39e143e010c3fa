//! A comparison for tests: whether two vectors hold the same elements, in
//! whatever order.

use std::fmt::Debug;
use vstd::prelude::*;
use vstd::std_specs::cmp::PartialEqSpec;

verus! {

broadcast use {vstd::multiset::group_multiset_axioms, vstd::multiset::group_multiset_properties};

/// The views of the elements, in the same order.
pub open spec fn views<T: View>(elements: Seq<T>) -> Seq<T::V> {
    elements.map_values(|e: T| e@)
}

/// Whether the two sequences hold the same elements, each as often in the one
/// as in the other, whatever the order. Elements are the same where their
/// views are.
pub open spec fn same_elements<T: View>(actual: Seq<T>, expected: Seq<T>) -> bool {
    views(actual).to_multiset() == views(expected).to_multiset()
}

/// Whether `==` on `T` tells exactly whether two views are the same.
pub open spec fn compares_views<T: View + PartialEq>() -> bool {
    &&& T::obeys_eq_spec()
    &&& forall|a: T, b: T| #[trigger] a.eq_spec(&b) <==> a@ == b@
}

/// A sequence without elements holds nothing, however often.
proof fn lemma_nothing_in_empty<V>(s: Seq<V>)
    requires
        s.len() == 0,
    ensures
        forall|x: V| #[trigger] s.to_multiset().count(x) == 0,
{
    s.to_multiset_ensures();
    assert forall|x: V| #[trigger] s.to_multiset().count(x) == 0 by {
        if s.to_multiset().count(x) > 0 {
            assert(s.contains(x));
        }
    }
}

/// `format!` with `{:?}`: the text that the `Debug` implementation of `T`
/// writes for `value`. Nothing is claimed of it.
#[verifier::external_body]
fn debug_text<T: Debug>(value: &T) -> (s: String) {
    format!("{:?}", value)
}

/// The first of `remaining`, positions in `actual`, whose element equals `wanted`.
fn find_equal<T: PartialEq + View>(actual: &Vec<T>, remaining: &Vec<usize>, wanted: &T) -> (r:
    Option<usize>)
    requires
        forall|k: int| 0 <= k < remaining@.len() ==> (#[trigger] remaining@[k]) < actual@.len(),
    ensures
        compares_views::<T>() ==> match r {
            Some(k) => k < remaining@.len() && actual@[remaining@[k as int] as int]@ == wanted@,
            None => forall|k: int|
                0 <= k < remaining@.len() ==> actual@[(#[trigger] remaining@[k]) as int]@
                    != wanted@,
        },
        r matches Some(k) ==> k < remaining@.len(),
{
    let mut k: usize = 0;
    while k < remaining.len()
        invariant
            k <= remaining@.len(),
            forall|k: int| 0 <= k < remaining@.len() ==> (#[trigger] remaining@[k]) < actual@.len(),
            compares_views::<T>() ==> forall|j: int|
                0 <= j < k ==> actual@[(#[trigger] remaining@[j]) as int]@ != wanted@,
        decreases remaining@.len() - k,
    {
        if *wanted == actual[remaining[k]] {
            return Some(k);
        }
        k = k + 1;
    }
    None
}

/// The elements at `positions`, written out between brackets with commas.
fn listed<T: Debug>(elements: &Vec<T>, positions: &Vec<usize>) -> (s: String)
    requires
        forall|k: int| 0 <= k < positions@.len() ==> (#[trigger] positions@[k]) < elements@.len(),
    ensures
        is_listing(s@, positions@.len() as nat),
{
    let mut written: Vec<String> = Vec::new();
    let mut k: usize = 0;
    while k < positions.len()
        invariant
            k <= positions@.len(),
            written@.len() == k,
            forall|k: int|
                0 <= k < positions@.len() ==> (#[trigger] positions@[k]) < elements@.len(),
        decreases positions@.len() - k,
    {
        written.push(debug_text(&elements[positions[k]]));
        k = k + 1;
    }
    write_listing(&written)
}

/// The texts one behind the other, a bracket before the first and a comma
/// and a space before each of the others.
pub open spec fn listing_items(texts: Seq<Seq<char>>) -> Seq<char>
    decreases texts.len(),
{
    if texts.len() == 0 {
        Seq::empty()
    } else {
        listing_items(texts.drop_last()) + (if texts.len() == 1 {
            "["@
        } else {
            ", "@
        }) + texts.last()
    }
}

/// The texts as a list: the [`listing_items`], then the bracket that closes
/// the list.
pub open spec fn listing(texts: Seq<Seq<char>>) -> Seq<char> {
    listing_items(texts) + "]"@
}

/// Whether `s` is the list of some `count` texts.
pub open spec fn is_listing(s: Seq<char>, count: nat) -> bool {
    exists|texts: Seq<Seq<char>>| texts.len() == count && s == #[trigger] listing(texts)
}

/// Writes the texts as a list.
pub fn write_listing(texts: &Vec<String>) -> (s: String)
    ensures
        s@ == listing(views(texts@)),
        is_listing(s@, texts@.len() as nat),
{
    let ghost all = views(texts@);
    let mut s = String::new();
    let mut k: usize = 0;
    while k < texts.len()
        invariant
            k <= texts@.len(),
            all == views(texts@),
            s@ == listing_items(all.take(k as int)),
        decreases texts@.len() - k,
    {
        proof {
            assert(all.take(k + 1).drop_last() =~= all.take(k as int));
            assert(all.take(k + 1).last() == texts@[k as int]@);
        }
        s.append(if k == 0 { "[" } else { ", " });
        s.append(texts[k].as_str());
        k = k + 1;
    }
    proof {
        assert(all.take(all.len() as int) =~= all);
    }
    s.append("]");
    proof {
        assert(s@ == listing(all));
        assert(all.len() == texts@.len());
    }
    s
}

/// Checks that `actual` holds the elements of `expected`, each as often,
/// in whatever order.
///
/// Where it does not, the error names the expected elements that were not
/// found and the elements that were not expected, for a test to fail with.
pub fn assert_contains_exactly_in_any_order<T: PartialEq + Debug + View>(
    actual: &Vec<T>,
    expected: &Vec<T>,
) -> (r: Result<(), String>)
    ensures
        compares_views::<T>() ==> (r is Ok <==> same_elements(actual@, expected@)),
{
    let ghost wanted = views(expected@);
    let ghost given = views(actual@);
    let mut remaining: Vec<usize> = Vec::new();
    let mut j: usize = 0;
    while j < actual.len()
        invariant
            j <= actual@.len(),
            remaining@.len() == j,
            forall|k: int| 0 <= k < j ==> (#[trigger] remaining@[k]) == k,
        decreases actual@.len() - j,
    {
        remaining.push(j);
        j = j + 1;
    }
    let ghost mut left: Seq<T::V> = given;
    let ghost mut missed: Seq<T::V> = Seq::empty();
    let mut unmatched: Vec<usize> = Vec::new();
    proof {
        assert(left =~= Seq::new(remaining@.len(), |k: int| actual@[remaining@[k] as int]@));
        lemma_nothing_in_empty(missed);
        lemma_nothing_in_empty(wanted.take(0));
    }
    let mut i: usize = 0;
    while i < expected.len()
        invariant
            i <= expected@.len(),
            wanted == views(expected@),
            given == views(actual@),
            forall|k: int| 0 <= k < remaining@.len() ==> (#[trigger] remaining@[k]) < actual@.len(),
            forall|k: int| 0 <= k < unmatched@.len() ==> (#[trigger] unmatched@[k]) < expected@.len(),
            left == Seq::new(remaining@.len(), |k: int| actual@[remaining@[k] as int]@),
            missed.len() == unmatched@.len(),
            compares_views::<T>() ==> forall|x: T::V|
                given.to_multiset().count(x) + missed.to_multiset().count(x) == wanted.take(
                    i as int,
                ).to_multiset().count(x) + #[trigger] left.to_multiset().count(x),
            compares_views::<T>() ==> forall|x: T::V|
                missed.to_multiset().count(x) > 0 ==> #[trigger] left.to_multiset().count(x) == 0,
        decreases expected@.len() - i,
    {
        let ghost e = expected@[i as int]@;
        let ghost done = wanted.take(i as int);
        proof {
            assert(wanted.take(i + 1) =~= done.push(e));
            done.to_multiset_ensures();
            left.to_multiset_ensures();
            missed.to_multiset_ensures();
        }
        match find_equal(actual, &remaining, &expected[i]) {
            Some(k) => {
                let ghost before = left;
                remaining.remove(k);
                proof {
                    left = before.remove(k as int);
                    assert(left =~= Seq::new(
                        remaining@.len(),
                        |k: int| actual@[remaining@[k] as int]@,
                    ));
                    if compares_views::<T>() {
                        assert(before[k as int] == e);
                    }
                }
            },
            None => {
                unmatched.push(i);
                proof {
                    if compares_views::<T>() {
                        assert(!left.contains(e)) by {
                            if left.contains(e) {
                                let k = choose|k: int| 0 <= k < left.len() && left[k] == e;
                                assert(actual@[remaining@[k] as int]@ != e);
                            }
                        }
                    }
                    missed = missed.push(e);
                    missed.to_multiset_ensures();
                }
            },
        }
        i = i + 1;
    }
    proof {
        assert(wanted.take(wanted.len() as int) =~= wanted);
        left.to_multiset_ensures();
        missed.to_multiset_ensures();
        given.to_multiset_ensures();
        wanted.to_multiset_ensures();
        if compares_views::<T>() {
            if unmatched@.len() == 0 && remaining@.len() == 0 {
                lemma_nothing_in_empty(missed);
                lemma_nothing_in_empty(left);
                assert forall|x: T::V|
                    given.to_multiset().count(x) == wanted.to_multiset().count(x) by {
                    assert(left.to_multiset().count(x) == 0);
                }
                assert(given.to_multiset() =~= wanted.to_multiset());
            }
            if given.to_multiset() == wanted.to_multiset() {
                if missed.len() > 0 {
                    let x = missed[0];
                    assert(missed.contains(x));
                    assert(missed.to_multiset().count(x) > 0);
                    assert(left.to_multiset().count(x) == 0);
                    assert(false);
                }
                if left.len() > 0 {
                    let x = left[0];
                    assert(left.contains(x));
                    assert(left.to_multiset().count(x) > 0);
                    assert(missed.to_multiset().count(x) > 0);
                    assert(false);
                }
            }
        }
    }
    if unmatched.len() == 0 && remaining.len() == 0 {
        return Ok(());
    }
    let mut report = String::new();
    if unmatched.len() > 0 {
        report.append("The following elements where expected but not found:\n");
        report.append(listed(expected, &unmatched).as_str());
        report.append("\n");
    }
    if remaining.len() > 0 {
        report.append("The following elements where not expected:\n");
        report.append(listed(actual, &remaining).as_str());
    }
    Err(report)
}

} // verus!
