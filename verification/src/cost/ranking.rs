//! Ranking implementations at one resource operating point.

use std::cmp::Ordering;
use vstd::prelude::*;

use crate::cost::number::{compare_positions, order_of, Number};

verus! {

/// What decides between two implementations, in this order. The makespan is
/// the longer of the critical path and the work divided by the workers.
#[derive(Clone, Copy, Debug, PartialEq, Eq, Structural)]
pub struct LatencyKey {
    /// How completely memory covers the work; the preferred one is smallest.
    pub memory_completion: u64,
    pub makespan: Number,
    pub work: Number,
    pub score: Number,
    pub risk: Number,
    pub peak_memory: u64,
}

impl LatencyKey {
    /// The criteria in order.
    pub open spec fn criteria(self) -> Seq<u64> {
        seq![
            self.memory_completion,
            self.makespan.position(),
            self.work.position(),
            self.score.position(),
            self.risk.position(),
            self.peak_memory,
        ]
    }
}

/// Decides by the first criterion from `k` on that differs.
pub open spec fn first_difference(a: Seq<u64>, b: Seq<u64>, k: int) -> Ordering
    decreases a.len() - k,
{
    if k < 0 || k >= a.len() {
        Ordering::Equal
    } else if a[k] != b[k] {
        order_of(a[k], b[k])
    } else {
        first_difference(a, b, k + 1)
    }
}

/// Compares two implementations: completion in memory first, then makespan,
/// and work, score, risk and memory to break ties the same way every time.
pub fn compare_latency(left: &LatencyKey, right: &LatencyKey) -> (r: Ordering)
    ensures
        r == first_difference(left.criteria(), right.criteria(), 0),
{
    proof {
        reveal_with_fuel(first_difference, 7);
    }
    if left.memory_completion != right.memory_completion {
        return compare_positions(left.memory_completion, right.memory_completion);
    }
    if left.makespan.ordered() != right.makespan.ordered() {
        return compare_positions(left.makespan.ordered(), right.makespan.ordered());
    }
    if left.work.ordered() != right.work.ordered() {
        return compare_positions(left.work.ordered(), right.work.ordered());
    }
    if left.score.ordered() != right.score.ordered() {
        return compare_positions(left.score.ordered(), right.score.ordered());
    }
    if left.risk.ordered() != right.risk.ordered() {
        return compare_positions(left.risk.ordered(), right.risk.ordered());
    }
    compare_positions(left.peak_memory, right.peak_memory)
}

proof fn lemma_difference_flips(a: Seq<u64>, b: Seq<u64>, k: int)
    requires
        a.len() == b.len(),
    ensures
        first_difference(a, b, k) == Ordering::Less <==> first_difference(b, a, k)
            == Ordering::Greater,
        first_difference(a, b, k) == Ordering::Equal <==> first_difference(b, a, k)
            == Ordering::Equal,
    decreases a.len() - k,
{
    if 0 <= k < a.len() {
        lemma_difference_flips(a, b, k + 1);
    }
}

proof fn lemma_difference_chains(a: Seq<u64>, b: Seq<u64>, c: Seq<u64>, k: int)
    requires
        a.len() == b.len(),
        b.len() == c.len(),
        first_difference(a, b, k) != Ordering::Greater,
        first_difference(b, c, k) != Ordering::Greater,
    ensures
        first_difference(a, c, k) != Ordering::Greater,
        first_difference(a, c, k) == Ordering::Equal ==> first_difference(a, b, k)
            == Ordering::Equal,
    decreases a.len() - k,
{
    if 0 <= k < a.len() {
        if a[k] == b[k] && b[k] == c[k] {
            lemma_difference_chains(a, b, c, k + 1);
        }
    }
}

/// The ranking is a total order: it turns round when the two are exchanged,
/// and better than better is better.
pub proof fn ranking_is_an_order(a: LatencyKey, b: LatencyKey, c: LatencyKey)
    ensures
        first_difference(a.criteria(), b.criteria(), 0) == Ordering::Less <==> first_difference(
            b.criteria(),
            a.criteria(),
            0,
        ) == Ordering::Greater,
        first_difference(a.criteria(), b.criteria(), 0) != Ordering::Greater && first_difference(
            b.criteria(),
            c.criteria(),
            0,
        ) != Ordering::Greater ==> first_difference(a.criteria(), c.criteria(), 0)
            != Ordering::Greater,
{
    lemma_difference_flips(a.criteria(), b.criteria(), 0);
    if first_difference(a.criteria(), b.criteria(), 0) != Ordering::Greater && first_difference(
        b.criteria(),
        c.criteria(),
        0,
    ) != Ordering::Greater {
        lemma_difference_chains(a.criteria(), b.criteria(), c.criteria(), 0);
    }
}

/// Memory decides before time, time before work, work before score, score before
/// risk, and risk before the peak of memory; candidates equal in all of these are
/// equal.
pub proof fn criteria_decide_in_order(a: LatencyKey, b: LatencyKey)
    ensures
        ({
            let order = first_difference(a.criteria(), b.criteria(), 0);
            let memory = a.memory_completion == b.memory_completion;
            let time = memory && a.makespan.position() == b.makespan.position();
            let work = time && a.work.position() == b.work.position();
            let score = work && a.score.position() == b.score.position();
            let risk = score && a.risk.position() == b.risk.position();
            &&& a.memory_completion < b.memory_completion ==> order == Ordering::Less
            &&& memory && a.makespan.position() < b.makespan.position() ==> order == Ordering::Less
            &&& time && a.work.position() < b.work.position() ==> order == Ordering::Less
            &&& work && a.score.position() < b.score.position() ==> order == Ordering::Less
            &&& score && a.risk.position() < b.risk.position() ==> order == Ordering::Less
            &&& risk && a.peak_memory < b.peak_memory ==> order == Ordering::Less
            &&& order == Ordering::Equal <==> risk && a.peak_memory == b.peak_memory
        }),
{
    reveal_with_fuel(first_difference, 7);
}

} // verus!
