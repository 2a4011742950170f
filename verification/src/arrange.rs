//! Candidate row fillings: every ordering of a handful of digits, in random
//! order.
//!
//! The orderings come from `permutohedron` and the random order from `rand`.
//! Both calls are wrapped here, and what the wrappers promise is taken on
//! trust from the documentation and the source of those crates.

use permutohedron::heap_recursive;
use rand::seq::SliceRandom;
use rand::thread_rng;
use vstd::prelude::*;

verus! {

/// `n!`, the number of orderings of `n` items.
pub open spec fn factorial(n: nat) -> nat
    decreases n,
{
    if n == 0 {
        1
    } else {
        n * factorial((n - 1) as nat)
    }
}

/// `p` holds the same items as `items`, each as often, in some order.
pub open spec fn is_arrangement(p: Seq<u8>, items: Seq<u8>) -> bool {
    p.to_multiset() == items.to_multiset()
}

/// There is always at least one ordering.
pub proof fn lemma_factorial_positive(n: nat)
    ensures
        factorial(n) >= 1,
    decreases n,
{
    if n > 0 {
        lemma_factorial_positive((n - 1) as nat);
        assert(n * factorial((n - 1) as nat) >= 1) by (nonlinear_arith)
            requires
                n >= 1,
                factorial((n - 1) as nat) >= 1,
        ;
    }
}

/// Appends a copy of `arrangement` to `found`.
fn keep(found: &mut Vec<Vec<u8>>, arrangement: &[u8])
    ensures
        final(found)@.len() == old(found)@.len() + 1,
        final(found)@.drop_last() == old(found)@,
        final(found)@.last()@ == arrangement@,
{
    let mut copy: Vec<u8> = Vec::new();
    let mut i: usize = 0;
    while i < arrangement.len()
        invariant
            i <= arrangement.len(),
            copy@ == arrangement@.take(i as int),
        decreases arrangement.len() - i,
    {
        copy.push(arrangement[i]);
        i = i + 1;
    }
    found.push(copy);
    assert(found@.drop_last() =~= old(found)@);
}

/// Calls `permutohedron::heap_recursive` on a copy of `items` and collects
/// what it visits.
///
/// `heap_recursive` runs Heap's algorithm, which visits every ordering of the
/// slice it is given: `n!` visits for `n` items, each a rearrangement of the
/// items, and every rearrangement among them. For zero or one item it visits
/// the slice once, as it is. The list grows as the factorial of the length,
/// so callers pass no more than the nine digits of a row.
#[verifier::external_body]
pub(crate) fn arrangements(items: &Vec<u8>) -> (all: Vec<Vec<u8>>)
    requires
        items@.len() <= 9,
    ensures
        all@.len() == factorial(items@.len()),
        forall|k: int| 0 <= k < all@.len() ==> is_arrangement(#[trigger] all@[k]@, items@),
        forall|p: Seq<u8>|
            is_arrangement(p, items@) ==> exists|k: int|
                0 <= k < all@.len() && #[trigger] all@[k]@ == p,
{
    let mut scratch = items.clone();
    let mut all: Vec<Vec<u8>> = Vec::new();
    heap_recursive(&mut scratch, |arrangement: &mut [u8]| keep(&mut all, arrangement));
    all
}

/// Calls `SliceRandom::shuffle` with the generator that `rand::thread_rng`
/// returns.
///
/// The shuffle only swaps entries of the list, so the list afterwards holds
/// the entries it held before, each as often; in which order is left open.
#[verifier::external_body]
pub(crate) fn shuffle(list: &mut Vec<Vec<u8>>)
    ensures
        final(list)@.to_multiset() == old(list)@.to_multiset(),
{
    list.shuffle(&mut thread_rng());
}

/// `list` holds the candidates for `items`: as many entries as `items` has
/// orderings, each entry an arrangement of `items`, and every arrangement of
/// `items` among the entries.
pub open spec fn is_candidate_list(list: Seq<Vec<u8>>, items: Seq<u8>) -> bool {
    &&& list.len() == factorial(items.len())
    &&& forall|k: int| 0 <= k < list.len() ==> is_arrangement(#[trigger] list[k]@, items)
    &&& forall|p: Seq<u8>|
        is_arrangement(p, items) ==> exists|k: int| 0 <= k < list.len() && #[trigger] list[k]@ == p
}

/// A shuffled candidate list is still the candidate list of the same items.
pub proof fn lemma_shuffled(before: Seq<Vec<u8>>, after: Seq<Vec<u8>>, items: Seq<u8>)
    requires
        after.to_multiset() == before.to_multiset(),
        is_candidate_list(before, items),
    ensures
        after.len() == before.len(),
        forall|k: int| 0 <= k < after.len() ==> is_arrangement(#[trigger] after[k]@, items),
        is_candidate_list(after, items),
{
    broadcast use vstd::seq_lib::group_to_multiset_ensures;

    vstd::seq_lib::to_multiset_len(before);
    vstd::seq_lib::to_multiset_len(after);
    assert forall|k: int| 0 <= k < after.len() implies is_arrangement(
        #[trigger] after[k]@,
        items,
    ) by {
        assert(after.contains(after[k]));
        assert(after.to_multiset().count(after[k]) > 0);
        assert(before.contains(after[k]));
        let i = choose|i: int| 0 <= i < before.len() && before[i] == after[k];
        assert(is_arrangement(before[i]@, items));
    }
    assert forall|p: Seq<u8>| is_arrangement(p, items) implies exists|k: int|
        0 <= k < after.len() && #[trigger] after[k]@ == p by {
        let i = choose|i: int| 0 <= i < before.len() && #[trigger] before[i]@ == p;
        assert(before.contains(before[i]));
        assert(before.to_multiset().count(before[i]) > 0);
        assert(after.contains(before[i]));
        let k = choose|k: int| 0 <= k < after.len() && after[k] == before[i];
        assert(after[k]@ == p);
    }
}

} // verus!
