//! Operators that wait for their inputs. A rewrite from the inputs upwards
//! keeps them in a list, so that deep plans take no deep calls.

use vstd::prelude::*;

use crate::operator::LogicalOperator;
use crate::plan::{
    lemma_plans_size_prefix, lemma_reversed_size, plans_size, reversed, LogicalPlan, NodeStats,
};

verus! {

/// An operator whose inputs are being rewritten, one after the other, with
/// what the rewrite keeps for it.
pub struct Frame<S> {
    pub stats: NodeStats,
    pub operator: LogicalOperator,
    /// The inputs that have not been entered, the next one last.
    pub rest: Vec<LogicalPlan>,
    /// The rewritten inputs.
    pub inputs: Vec<LogicalPlan>,
    pub state: S,
    /// The operator with its inputs as they were.
    pub whole: Ghost<LogicalPlan>,
}

impl<S> Frame<S> {
    /// Whether the frame stands for its operator with so many inputs entered
    /// that are not rewritten yet.
    pub open spec fn is_split(self, open: nat) -> bool {
        let all = self.whole@.children@;
        &&& self.whole@.stats == self.stats
        &&& self.whole@.operator == self.operator
        &&& self.rest@.len() <= all.len()
        &&& self.rest@ == all.reverse().take(self.rest@.len() as int)
        &&& self.inputs@.len() + open + self.rest@.len() == all.len()
    }

    /// The input after the rewritten ones.
    pub open spec fn next_input(self) -> LogicalPlan {
        self.whole@.children@[self.inputs@.len() as int]
    }

    /// Steps that are left: to enter each operator and to rewrite it.
    pub open spec fn size(self) -> nat {
        1 + 2 * plans_size(self.rest@, self.rest@.len())
    }

    /// A frame before any input has been entered.
    pub fn open(plan: LogicalPlan, state: S) -> (r: Frame<S>)
        ensures
            r.is_split(0),
            r.whole@ == plan,
            r.inputs@.len() == 0,
            r.rest@ == plan.children@.reverse(),
            r.state == state,
    {
        let ghost whole = plan;
        let LogicalPlan { stats, operator, children } = plan;
        let rest = reversed(children);
        assert(rest@ =~= whole.children@.reverse().take(rest@.len() as int));
        Frame { stats, operator, rest, inputs: Vec::new(), state, whole: Ghost(whole) }
    }

    /// Enters the next input, if one is left.
    pub fn enter(&mut self) -> (r: Option<LogicalPlan>)
        requires
            old(self).is_split(0),
        ensures
            final(self).whole == old(self).whole,
            final(self).stats == old(self).stats,
            final(self).operator == old(self).operator,
            final(self).inputs == old(self).inputs,
            final(self).state == old(self).state,
            match r {
                Some(input) => {
                    &&& final(self).is_split(1)
                    &&& input == old(self).next_input()
                    &&& old(self).inputs@.len() < old(self).whole@.children@.len()
                    &&& final(self).size() + 1 + 2 * plans_size(
                        input.children@,
                        input.children@.len(),
                    ) < old(self).size()
                },
                None => {
                    &&& final(self).is_split(0)
                    &&& final(self).size() == old(self).size()
                    &&& old(self).inputs@.len() == old(self).whole@.children@.len()
                },
            },
    {
        let ghost all = self.whole@.children@;
        let ghost n = self.rest@.len();
        let ghost before = self.rest@;
        let r = self.rest.pop();
        proof {
            if let Some(input) = &r {
                assert(*input == all.reverse()[n - 1]);
                assert(self.rest@ =~= all.reverse().take(n - 1));
                reveal_with_fuel(plans_size, 2);
                lemma_plans_size_prefix(before, self.rest@, (n - 1) as nat);
            } else {
                assert(self.rest@ =~= before);
            }
        }
        r
    }
}

/// A frame that has not entered its inputs has the size of its plan.
pub proof fn lemma_open_size<S>(frame: Frame<S>)
    requires
        frame.rest@ == frame.whole@.children@.reverse(),
    ensures
        frame.size() == 1 + 2 * plans_size(
            frame.whole@.children@,
            frame.whole@.children@.len(),
        ),
{
    lemma_reversed_size(frame.whole@.children@);
}

/// Steps that are left for the first `n` frames.
pub open spec fn frames_size<S>(frames: Seq<Frame<S>>, n: nat) -> nat
    decreases n,
{
    if n == 0 || n > frames.len() {
        0
    } else {
        frames_size(frames, (n - 1) as nat) + frames[n - 1].size()
    }
}

proof fn lemma_frames_size_prefix<S>(frames: Seq<Frame<S>>, all: Seq<Frame<S>>, n: nat)
    requires
        n <= frames.len(),
        n <= all.len(),
        forall|i: int| 0 <= i < n ==> #[trigger] frames[i] == all[i],
    ensures
        frames_size(frames, n) == frames_size(all, n),
    decreases n,
{
    if n > 0 {
        lemma_frames_size_prefix(frames, all, (n - 1) as nat);
        assert(frames[n - 1] == all[n - 1]);
    }
}

pub proof fn lemma_frames_size_push<S>(frames: Seq<Frame<S>>, frame: Frame<S>)
    ensures
        frames_size(frames.push(frame), frames.len() + 1) == frames_size(frames, frames.len())
            + frame.size(),
{
    lemma_frames_size_prefix(frames, frames.push(frame), frames.len());
}

} // verus!
