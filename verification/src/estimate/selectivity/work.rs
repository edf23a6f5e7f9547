//! Admission of analysis work.

use vstd::prelude::*;

verus! {

/// Decides before each step of an analysis whether it may be taken. Nothing is
/// claimed of the answers.
pub trait WorkAdmission {
    type Error;

    fn grant(&mut self) -> (r: Result<bool, Self::Error>);
}

/// Why an analysis ended without a result. A stopped analysis says nothing
/// about its predicate.
#[derive(Debug)]
pub enum SelectivityStop<E> {
    /// A step was not admitted.
    Incomplete,
    /// Admission itself failed.
    Failed(E),
}

impl<E> SelectivityStop<E> {
    pub open spec fn spec_reason(self) -> Seq<char> {
        match self {
            SelectivityStop::Incomplete => "selectivity work admission stopped"@,
            SelectivityStop::Failed(_) => "selectivity work admission failed"@,
        }
    }

    /// The stop in words, without the error that admission gave.
    pub fn reason(&self) -> (r: &'static str)
        ensures
            r@ == self.spec_reason(),
    {
        match self {
            SelectivityStop::Incomplete => "selectivity work admission stopped",
            SelectivityStop::Failed(_) => "selectivity work admission failed",
        }
    }

    /// The stop in words, where `error` is the text of what admission gave.
    pub fn message(&self, error: &str) -> (r: String)
        ensures
            r@ == match self {
                SelectivityStop::Incomplete => self.spec_reason(),
                SelectivityStop::Failed(_) => self.spec_reason() + ": "@ + error@,
            },
    {
        let mut text = String::from_str(self.reason());
        if let SelectivityStop::Failed(_) = self {
            text.append(": ");
            text.append(error);
        }
        text
    }
}

/// Admits every step.
#[derive(Debug)]
pub struct Unrestricted;

impl WorkAdmission for Unrestricted {
    type Error = ();

    fn grant(&mut self) -> (r: Result<bool, ()>)
        ensures
            r == Ok::<bool, ()>(true),
    {
        Ok(true)
    }
}

/// Whether an admission of this kind gave an answer.
pub open spec fn is_given<A: WorkAdmission>(answer: Result<bool, A::Error>) -> bool {
    exists|admission: &mut A| #[trigger] call_ensures(A::grant, (admission,), answer)
}

/// The stop that an answer demands, if any.
pub open spec fn stop_of<E>(answer: Result<bool, E>) -> Option<SelectivityStop<E>> {
    match answer {
        Ok(admitted) => if admitted {
            None
        } else {
            Some(SelectivityStop::Incomplete)
        },
        Err(error) => Some(SelectivityStop::Failed(error)),
    }
}

/// Whether the answers go on from `before` to `after`: each further one was
/// given, all but the last grant a step, and the last demands the given stop.
/// Without a stop, all of them grant a step.
pub closed spec fn is_run<A: WorkAdmission>(
    before: Seq<Result<bool, A::Error>>,
    after: Seq<Result<bool, A::Error>>,
    stop: Option<SelectivityStop<A::Error>>,
) -> bool {
    &&& before.len() <= after.len()
    &&& forall|i: int| 0 <= i < before.len() ==> #[trigger] after[i] == before[i]
    &&& forall|i: int|
        before.len() <= i < after.len() ==> is_given::<A>(#[trigger] after[i]) && (i < after.len()
            - 1 ==> stop_of(after[i]) is None)
    &&& if after.len() == before.len() {
        stop is None
    } else {
        stop_of(after.last()) == stop
    }
}

/// What has been answered stays, and a stop is what the last answer demands:
/// after that nothing is asked.
pub proof fn run_is_as_answered<A: WorkAdmission>(
    before: Seq<Result<bool, A::Error>>,
    after: Seq<Result<bool, A::Error>>,
    stop: Option<SelectivityStop<A::Error>>,
)
    requires
        is_run::<A>(before, after, stop),
    ensures
        before.is_prefix_of(after),
        forall|i: int|
            before.len() <= i < after.len() ==> is_given::<A>(#[trigger] after[i]) && (i
                < after.len() - 1 || stop is None ==> after[i] == Ok::<bool, A::Error>(true)),
        stop is Some ==> after.len() > before.len() && stop_of(after.last()) == stop,
{
    assert(before =~= after.take(before.len() as int));
}

/// Without a question there is no stop.
pub broadcast proof fn lemma_no_run<A: WorkAdmission>(a: Seq<Result<bool, A::Error>>)
    ensures
        #[trigger] is_run::<A>(a, a, None),
{
}

/// One granted run after the other.
pub broadcast proof fn lemma_runs<A: WorkAdmission>(
    a: Seq<Result<bool, A::Error>>,
    b: Seq<Result<bool, A::Error>>,
    c: Seq<Result<bool, A::Error>>,
    stop: Option<SelectivityStop<A::Error>>,
)
    requires
        #[trigger] is_run::<A>(a, b, None),
        #[trigger] is_run::<A>(b, c, stop),
    ensures
        is_run::<A>(a, c, stop),
{
    assert forall|i: int| a.len() <= i < c.len() implies is_given::<A>(#[trigger] c[i]) && (i
        < c.len() - 1 ==> stop_of(c[i]) is None) by {
        if i < b.len() {
            assert(c[i] == b[i]);
            if i == b.len() - 1 {
                assert(b.last() == b[i]);
            }
        }
    }
    assert forall|i: int| 0 <= i < a.len() implies #[trigger] c[i] == a[i] by {
        assert(b[i] == a[i]);
    }
    if c.len() == b.len() && b.len() > a.len() {
        assert(c.last() == b.last());
    }
}

pub broadcast group group_runs {
    lemma_no_run,
    lemma_runs,
}

/// The stop that a result carries.
pub open spec fn stopped<T, E>(r: Result<T, SelectivityStop<E>>) -> Option<SelectivityStop<E>> {
    match r {
        Ok(_) => None,
        Err(stop) => Some(stop),
    }
}

/// Whether so many steps were asked for: all of them, or without the last ones
/// where a refusal stopped the work.
pub open spec fn takes<A: WorkAdmission>(
    before: Seq<Result<bool, A::Error>>,
    after: Seq<Result<bool, A::Error>>,
    stop: Option<SelectivityStop<A::Error>>,
    steps: nat,
) -> bool {
    match stop {
        None => after.len() == before.len() + steps,
        Some(_) => before.len() < after.len() <= before.len() + steps,
    }
}

/// Admission of analysis work, one step at a time.
pub struct SelectivityWork<A: WorkAdmission> {
    admission: A,
    answers: Ghost<Seq<Result<bool, A::Error>>>,
}

impl<A: WorkAdmission> SelectivityWork<A> {
    /// Everything that the admission has answered, in order.
    pub closed spec fn answers(self) -> Seq<Result<bool, A::Error>> {
        self.answers@
    }

    pub fn new(admission: A) -> (r: SelectivityWork<A>)
        ensures
            r.answers() == Seq::<Result<bool, A::Error>>::empty(),
    {
        SelectivityWork { admission, answers: Ghost(Seq::empty()) }
    }

    /// Asks for one step.
    pub fn take_step(&mut self) -> (r: Result<(), SelectivityStop<A::Error>>)
        ensures
            is_run::<A>(old(self).answers(), final(self).answers(), stopped(r)),
            final(self).answers().len() == old(self).answers().len() + 1,
    {
        let ghost before = self.answers@;
        let answer = self.admission.grant();
        proof {
            assert(is_given::<A>(answer));
        }
        self.answers = Ghost(before.push(answer));
        assert(self.answers@.last() == answer);
        match answer {
            Ok(granted) => if granted {
                Ok(())
            } else {
                Err(SelectivityStop::Incomplete)
            },
            Err(error) => Err(SelectivityStop::Failed(error)),
        }
    }
}

/// Work is stopped only where a step was not granted.
pub proof fn granted_work_goes_on<A: WorkAdmission>(
    before: Seq<Result<bool, A::Error>>,
    after: Seq<Result<bool, A::Error>>,
    stop: Option<SelectivityStop<A::Error>>,
)
    requires
        is_run::<A>(before, after, stop),
        forall|i: int|
            before.len() <= i < after.len() ==> #[trigger] after[i] == Ok::<bool, A::Error>(true),
    ensures
        stop is None,
{
    run_is_as_answered::<A>(before, after, stop);
}

/// Work without restriction is never stopped.
pub proof fn unrestricted_work_goes_on(
    before: Seq<Result<bool, ()>>,
    after: Seq<Result<bool, ()>>,
    stop: Option<SelectivityStop<()>>,
)
    requires
        is_run::<Unrestricted>(before, after, stop),
    ensures
        stop is None,
{
    if after.len() > before.len() {
        assert(is_given::<Unrestricted>(after[after.len() - 1]));
    }
}

} // verus!
