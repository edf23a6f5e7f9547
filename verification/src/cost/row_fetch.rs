//! Carrying rows by identity and fetching their payload later.

use vstd::prelude::*;

verus! {

/// What the comparison of carrying a payload with fetching it later takes.
#[derive(Clone, Copy, Debug, PartialEq, Eq, Structural)]
pub struct LateRowFetch {
    pub carrier_rows: u64,
    pub carrier_stages: usize,
    pub fetched_rows: u64,
    pub payload_width: usize,
}

/// The sum of the first `n` widths.
pub open spec fn sum_of(widths: Seq<usize>, n: nat) -> int
    decreases n,
{
    if n == 0 {
        0
    } else {
        sum_of(widths, (n - 1) as nat) + widths[n - 1]
    }
}

proof fn lemma_sum_grows(widths: Seq<usize>, n: nat, m: nat)
    requires
        n <= m,
    ensures
        0 <= sum_of(widths, n) <= sum_of(widths, m),
    decreases m,
{
    if n < m {
        lemma_sum_grows(widths, n, (m - 1) as nat);
    } else if n > 0 {
        lemma_sum_grows(widths, (n - 1) as nat, (n - 1) as nat);
    }
}

/// Whether fetching later can pay at all: there are rows, stages that carry
/// them, and a payload to leave behind.
pub fn late_row_fetch(
    carrier_rows: u64,
    fetched_rows: u64,
    payload_widths: &Vec<usize>,
    carrier_stages: usize,
) -> (r: Option<LateRowFetch>)
    requires
        sum_of(payload_widths@, payload_widths@.len()) <= usize::MAX,
    ensures
        r == if carrier_rows == 0 || carrier_stages == 0 || sum_of(
            payload_widths@,
            payload_widths@.len(),
        ) == 0 {
            None
        } else {
            Some(
                LateRowFetch {
                    carrier_rows,
                    carrier_stages,
                    fetched_rows,
                    payload_width: sum_of(payload_widths@, payload_widths@.len()) as usize,
                },
            )
        },
{
    if carrier_rows == 0 || carrier_stages == 0 {
        return None;
    }
    let mut payload_width: usize = 0;
    let mut i: usize = 0;
    while i < payload_widths.len()
        invariant
            i <= payload_widths@.len(),
            sum_of(payload_widths@, payload_widths@.len()) <= usize::MAX,
            payload_width == sum_of(payload_widths@, i as nat),
        decreases payload_widths@.len() - i,
    {
        proof {
            lemma_sum_grows(payload_widths@, (i + 1) as nat, payload_widths@.len());
        }
        payload_width = payload_width + payload_widths[i];
        i = i + 1;
    }
    if payload_width == 0 {
        return None;
    }
    Some(LateRowFetch { carrier_rows, carrier_stages, fetched_rows, payload_width })
}

/// A sum of widths is at least each of them.
pub proof fn sum_covers_each_width(widths: Seq<usize>, n: nat, i: int)
    requires
        0 <= i < n <= widths.len(),
    ensures
        sum_of(widths, n) >= widths[i],
        sum_of(widths, n) == widths[i] + sum_of(widths.remove(i), (n - 1) as nat),
    decreases n,
{
    let rest = widths.remove(i);
    lemma_sum_prefix(widths, rest, i as nat);
    if i == n - 1 {
        lemma_sum_prefix(widths, rest, (n - 1) as nat);
        lemma_sum_nonnegative(widths, (n - 1) as nat);
    } else {
        sum_covers_each_width(widths, (n - 1) as nat, i);
        assert(rest[n - 2] == widths[n - 1]);
        lemma_sum_nonnegative(rest, (n - 1) as nat);
    }
}

proof fn lemma_sum_prefix(widths: Seq<usize>, other: Seq<usize>, n: nat)
    requires
        forall|i: int| 0 <= i < n ==> #[trigger] widths[i] == other[i],
    ensures
        sum_of(widths, n) == sum_of(other, n),
    decreases n,
{
    if n > 0 {
        lemma_sum_prefix(widths, other, (n - 1) as nat);
        assert(widths[n - 1] == other[n - 1]);
    }
}

proof fn lemma_sum_nonnegative(widths: Seq<usize>, n: nat)
    ensures
        sum_of(widths, n) >= 0,
    decreases n,
{
    if n > 0 {
        lemma_sum_nonnegative(widths, (n - 1) as nat);
    }
}

} // verus!
