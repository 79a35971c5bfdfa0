//! The random order in which the members of a trial are considered.

use rand::seq::SliceRandom;
use vstd::prelude::*;
use vstd::seq_lib::{to_multiset_contains, to_multiset_len};

verus! {

/// `rand::rngs::ThreadRng`, the handle to the random number generator of the
/// current thread. Nothing is known of what is inside it.
#[verifier::external_type_specification]
#[verifier::external_body]
pub struct ExThreadRng(rand::rngs::ThreadRng);

/// `rand::thread_rng` hands out the generator of the current thread, seeded
/// by the system. Nothing is claimed of the handle. The call panics if the
/// system cannot seed the generator.
pub assume_specification[ rand::thread_rng ]() -> (rng: rand::rngs::ThreadRng);

/// `rand::seq::SliceRandom::shuffle` on the slice of the list: it only swaps
/// elements, so the list holds afterwards what it held before, each element
/// as often as before. Which order comes out is not stated.
#[verifier::external_body]
fn shuffle(items: &mut Vec<u32>, rng: &mut rand::rngs::ThreadRng)
    ensures
        final(items)@.to_multiset() == old(items)@.to_multiset(),
{
    items.shuffle(rng);
}

/// An order of the whole population: every member `0..n` once, nobody else.
pub open spec fn is_lineup(order: Seq<u32>, n: nat) -> bool {
    &&& order.len() == n
    &&& order.no_duplicates()
    &&& forall|q: int| 0 <= q < order.len() ==> #[trigger] order[q] < n
    &&& forall|m: u32| m < n ==> #[trigger] order.contains(m)
}

/// Whatever holds the same elements as a lineup, each as often, is a lineup.
pub proof fn lemma_rearranged_lineup(before: Seq<u32>, after: Seq<u32>, n: nat)
    requires
        is_lineup(before, n),
        after.to_multiset() == before.to_multiset(),
    ensures
        is_lineup(after, n),
{
    to_multiset_len(before);
    to_multiset_len(after);
    before.lemma_multiset_has_no_duplicates();
    after.lemma_multiset_has_no_duplicates_conv();
    assert forall|q: int| 0 <= q < after.len() implies #[trigger] after[q] < n by {
        to_multiset_contains(after, after[q]);
        to_multiset_contains(before, after[q]);
    }
    assert forall|m: u32| m < n implies #[trigger] after.contains(m) by {
        to_multiset_contains(before, m);
        to_multiset_contains(after, m);
    }
}

/// The members `0..n` in rising order.
pub fn members_in_order(n: u32) -> (order: Vec<u32>)
    ensures
        order@.len() == n,
        forall|q: int| 0 <= q < n ==> #[trigger] order@[q] == q,
        is_lineup(order@, n as nat),
{
    let mut order: Vec<u32> = Vec::new();
    let mut m: u32 = 0;
    while m < n
        invariant
            m <= n,
            order@.len() == m,
            forall|q: int| 0 <= q < m ==> #[trigger] order@[q] == q,
        decreases n - m,
    {
        order.push(m);
        m += 1;
    }
    assert forall|m: u32| m < n implies #[trigger] order@.contains(m) by {
        assert(order@[m as int] == m);
    }
    order
}

/// The members `0..n` in a random order.
pub fn shuffled_members(n: u32) -> (order: Vec<u32>)
    ensures
        is_lineup(order@, n as nat),
{
    let mut order = members_in_order(n);
    let ghost sorted = order@;
    let mut rng = rand::thread_rng();
    shuffle(&mut order, &mut rng);
    proof {
        lemma_rearranged_lineup(sorted, order@, n as nat);
    }
    order
}

} // verus!
