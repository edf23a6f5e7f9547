//! Admission of the operands that an analysis of a predicate follows.

use vstd::prelude::*;

use crate::estimate::selectivity::resolve::{
    are_apart, expression_size, expressions_size, find_shared, is_answer, lemma_expression_size,
    lemma_parts, parts,
};
use crate::estimate::selectivity::work::{
    group_runs, is_run, stopped, takes, SelectivityStop, SelectivityWork, WorkAdmission,
};
use crate::expression::analysis::{lemma_view_children, views};
use crate::expression::{Expression, ExpressionView};
use crate::types::OperatorType;

verus! {

broadcast use group_runs;

/// Whether the selectivity of an expression is put together from those of its
/// operands.
pub open spec fn is_composite(e: ExpressionView) -> bool {
    match e {
        ExpressionView::Conjunction(_, _) => true,
        ExpressionView::Operator(operator, _, _) => operator is Not,
        _ => false,
    }
}

/// The operands whose selectivities an expression is put together from.
fn composite_operands(e: &Expression) -> (r: Option<&Vec<Expression>>)
    ensures
        match r {
            Some(list) => is_composite(e@) && list@ == parts(*e),
            None => !is_composite(e@),
        },
{
    proof {
        lemma_view_children(*e);
    }
    match e {
        Expression::Conjunction(conjunction) => Some(&conjunction.children),
        Expression::Operator(operator) => match operator.operator_type {
            OperatorType::Not => Some(&operator.children),
            _ => None,
        },
        _ => None,
    }
}

pub fn composite(e: &Expression) -> (r: bool)
    ensures
        r == is_composite(e@),
{
    composite_operands(e).is_some()
}

/// Whether each expression is an operand of the composite one before it.
pub open spec fn is_path(path: Seq<Expression>) -> bool {
    &&& path.len() > 0
    &&& forall|k: int|
        0 <= k < path.len() - 1 ==> is_composite((#[trigger] path[k])@) && parts(path[k]).contains(
            path[k + 1],
        )
}

/// Whether an analysis of `e` comes to `x`.
pub open spec fn comes_to(e: Expression, x: Expression) -> bool {
    exists|path: Seq<Expression>| #[trigger]
        is_path(path) && path.first() == e && path.last() == x
}

/// Composite expressions that an analysis of `e` comes to, each shared node of
/// them once.
pub open spec fn is_walk(e: Expression, seen: Seq<Expression>) -> bool {
    &&& are_apart(seen)
    &&& forall|k: int|
        0 <= k < seen.len() ==> is_composite((#[trigger] seen[k])@) && comes_to(e, seen[k])
}

/// The predicate itself, as something that is followed.
pub open spec fn start() -> (int, int) {
    (-1, 0)
}

/// Whether something is followed: the predicate, or an operand of a walked
/// expression, by the expression and the operand's position.
pub open spec fn is_followed(seen: Seq<Expression>, edge: (int, int)) -> bool {
    edge == start() || (0 <= edge.0 < seen.len() && 0 <= edge.1 < parts(seen[edge.0]).len())
}

pub open spec fn followed(e: Expression, seen: Seq<Expression>, edge: (int, int)) -> Expression {
    if edge == start() {
        e
    } else {
        parts(seen[edge.0])[edge.1]
    }
}

/// Whether what was followed led to the walked expressions: each of them was
/// walked for one operand at most, and any other that leads to it is one shared
/// node with it.
pub open spec fn are_visits(
    e: Expression,
    seen: Seq<Expression>,
    visits: Map<(int, int), int>,
    made: Set<(int, int)>,
) -> bool {
    &&& forall|edge: (int, int)| #[trigger]
        visits.contains_key(edge) ==> {
            &&& is_followed(seen, edge)
            &&& 0 <= visits[edge] < seen.len()
            &&& seen[visits[edge]] == followed(e, seen, edge)
            &&& made.contains(edge) || is_answer(
                seen[visits[edge]],
                followed(e, seen, edge),
                true,
            )
        }
    &&& forall|edge: (int, int)| #[trigger] made.contains(edge) ==> visits.contains_key(edge)
    &&& forall|a: (int, int), b: (int, int)|
        #![trigger made.contains(a), made.contains(b)]
        made.contains(a) && made.contains(b) && a != b ==> visits[a] != visits[b]
}

/// Whether those are all composite expressions that it comes to: whatever was
/// followed and is composite led to one of them.
pub open spec fn is_whole_walk(e: Expression, seen: Seq<Expression>) -> bool {
    &&& is_walk(e, seen)
    &&& exists|visits: Map<(int, int), int>, made: Set<(int, int)>| #[trigger]
        are_visits(e, seen, visits, made) && forall|edge: (int, int)|
            is_followed(seen, edge) && is_composite((#[trigger] followed(e, seen, edge))@)
                ==> visits.contains_key(edge)
}

/// Operands of the first `n` expressions.
pub open spec fn operand_count(list: Seq<Expression>, n: nat) -> nat
    decreases n,
{
    if n == 0 {
        0
    } else {
        operand_count(list, (n - 1) as nat) + parts(list[n - 1]).len()
    }
}

/// Steps of a walk: one for the predicate, and one for each operand.
pub open spec fn walk_steps(seen: Seq<Expression>) -> nat {
    1 + operand_count(seen, seen.len())
}

proof fn lemma_operand_count_prefix(a: Seq<Expression>, b: Seq<Expression>, n: nat)
    requires
        n <= a.len(),
        n <= b.len(),
        forall|i: int| 0 <= i < n ==> #[trigger] a[i] == b[i],
    ensures
        operand_count(a, n) == operand_count(b, n),
    decreases n,
{
    if n > 0 {
        lemma_operand_count_prefix(a, b, (n - 1) as nat);
        assert(a[n - 1] == b[n - 1]);
    }
}

/// Parts of the expressions that are left to look at.
spec fn stack_size(stack: Seq<&Expression>) -> nat
    decreases stack.len(),
{
    if stack.len() == 0 {
        0
    } else {
        stack_size(stack.drop_last()) + expression_size(stack.last()@)
    }
}

/// Whether what is left to look at has been followed and not looked at.
spec fn are_left(
    e: Expression,
    seen: Seq<Expression>,
    visits: Map<(int, int), int>,
    stack: Seq<&Expression>,
    origins: Seq<(int, int)>,
) -> bool {
    &&& origins.len() == stack.len()
    &&& forall|i: int|
        0 <= i < stack.len() ==> {
            &&& comes_to(e, *#[trigger] stack[i])
            &&& is_followed(seen, origins[i])
            &&& *stack[i] == followed(e, seen, origins[i])
            &&& !visits.contains_key(origins[i])
        }
    &&& forall|i: int, j: int|
        #![trigger origins[i], origins[j]]
        0 <= i < j < origins.len() ==> origins[i] != origins[j]
}

/// One more walked expression changes nothing of what was followed before.
proof fn lemma_walked_more(
    e: Expression,
    seen: Seq<Expression>,
    x: Expression,
    visits: Map<(int, int), int>,
    made: Set<(int, int)>,
    stack: Seq<&Expression>,
    origins: Seq<(int, int)>,
    origin: (int, int),
)
    requires
        are_visits(e, seen, visits, made),
        are_left(e, seen, visits, stack, origins),
        is_followed(seen, origin),
        x == followed(e, seen, origin),
        !visits.contains_key(origin),
        !origins.contains(origin),
    ensures
        are_visits(
            e,
            seen.push(x),
            visits.insert(origin, seen.len() as int),
            made.insert(origin),
        ),
        are_left(e, seen.push(x), visits.insert(origin, seen.len() as int), stack, origins),
{
    let more = seen.push(x);
    let now = visits.insert(origin, seen.len() as int);
    let marks = made.insert(origin);
    assert forall|edge: (int, int)| is_followed(seen, edge) implies is_followed(more, edge)
        && #[trigger] followed(e, more, edge) == followed(e, seen, edge) by {
        if edge != start() {
            assert(more[edge.0] == seen[edge.0]);
        }
    }
    assert forall|edge: (int, int)| #[trigger] now.contains_key(edge) implies {
        &&& is_followed(more, edge)
        &&& 0 <= now[edge] < more.len()
        &&& more[now[edge]] == followed(e, more, edge)
        &&& marks.contains(edge) || is_answer(more[now[edge]], followed(e, more, edge), true)
    } by {
        assert(followed(e, more, edge) == followed(e, more, edge));
        if edge != origin {
            assert(visits.contains_key(edge));
            assert(followed(e, more, edge) == followed(e, seen, edge));
            assert(more[visits[edge]] == seen[visits[edge]]);
        }
    }
    assert forall|a: (int, int), b: (int, int)|
        #![trigger marks.contains(a), marks.contains(b)]
        marks.contains(a) && marks.contains(b) && a != b implies now[a] != now[b] by {
        if a != origin {
            assert(made.contains(a));
            assert(visits.contains_key(a));
        }
        if b != origin {
            assert(made.contains(b));
            assert(visits.contains_key(b));
        }
    }
    assert forall|i: int| 0 <= i < stack.len() implies {
        &&& comes_to(e, *#[trigger] stack[i])
        &&& is_followed(more, origins[i])
        &&& *stack[i] == followed(e, more, origins[i])
        &&& !now.contains_key(origins[i])
    } by {
        assert(followed(e, more, origins[i]) == followed(e, seen, origins[i]));
        if origins[i] == origin {
            assert(origins.contains(origin));
        }
    }
}

/// Asks for a predicate and, before each is followed, for the operands that
/// its selectivity is put together from. A shared expression is walked once.
/// Predicates can be deep, so what is left to look at stands in a list.
pub fn walk_edges<A: WorkAdmission>(
    e: &Expression,
    seen: &mut Vec<Expression>,
    work: &mut SelectivityWork<A>,
) -> (r: Result<(), SelectivityStop<A::Error>>)
    requires
        old(seen)@.len() == 0,
    ensures
        is_walk(*e, final(seen)@),
        r is Ok ==> is_whole_walk(*e, final(seen)@),
        is_run::<A>(old(work).answers(), final(work).answers(), stopped(r)),
        takes::<A>(
            old(work).answers(),
            final(work).answers(),
            stopped(r),
            walk_steps(final(seen)@),
        ),
{
    if let Err(stop) = work.take_step() {
        return Err(stop);
    }
    let mut stack: Vec<&Expression> = Vec::new();
    let ghost mut origins: Seq<(int, int)> = Seq::empty().push(start());
    let ghost mut visits: Map<(int, int), int> = Map::empty();
    let ghost mut made: Set<(int, int)> = Set::empty();
    stack.push(e);
    proof {
        let path = seq![*e];
        assert(is_path(path));
        assert(path.first() == *e && path.last() == *e);
        assert(origins[0] == start());
        assert(origins.contains(start()));
    }
    while stack.len() > 0
        invariant
            is_walk(*e, seen@),
            are_visits(*e, seen@, visits, made),
            are_left(*e, seen@, visits, stack@, origins),
            forall|edge: (int, int)|
                is_followed(seen@, edge) && is_composite((#[trigger] followed(*e, seen@, edge))@)
                    ==> visits.contains_key(edge) || origins.contains(edge),
            is_run::<A>(old(work).answers(), work.answers(), None),
            work.answers().len() == old(work).answers().len() + walk_steps(seen@),
        decreases stack_size(stack@),
    {
        let ghost before = stack@;
        let ghost walked = seen@;
        let ghost waiting = origins;
        if let Some(x) = stack.pop() {
            let ghost rest = stack@;
            let ghost origin = waiting.last();
            let ghost others = waiting.drop_last();
            proof {
                assert(rest =~= before.drop_last());
                assert(before[before.len() - 1] == x);
                lemma_expression_size(x@);
                assert(!others.contains(origin)) by {
                    if others.contains(origin) {
                        let i = choose|i: int| 0 <= i < others.len() && others[i] == origin;
                        assert(waiting[i] != waiting[waiting.len() - 1]);
                    }
                }
                assert forall|i: int| 0 <= i < rest.len() implies {
                    &&& comes_to(*e, *#[trigger] rest[i])
                    &&& is_followed(walked, others[i])
                    &&& *rest[i] == followed(*e, walked, others[i])
                    &&& !visits.contains_key(others[i])
                } by {
                    assert(rest[i] == before[i]);
                    assert(others[i] == waiting[i]);
                }
                assert forall|i: int, j: int|
                    #![trigger others[i], others[j]]
                    0 <= i < j < others.len() implies others[i] != others[j] by {
                    assert(waiting[i] != waiting[j]);
                }
                assert(are_left(*e, walked, visits, rest, others));
                assert forall|edge: (int, int)| waiting.contains(edge) && edge != origin implies
                    #[trigger] others.contains(edge) by {
                    let i = choose|i: int| 0 <= i < waiting.len() && waiting[i] == edge;
                    assert(others[i] == edge);
                }
                origins = others;
            }
            let Some(children) = composite_operands(x) else {
                continue ;
            };
            if let Some(n) = find_shared(seen, x) {
                proof {
                    let now = visits.insert(origin, n as int);
                    assert forall|a: (int, int), b: (int, int)|
                        #![trigger made.contains(a), made.contains(b)]
                        made.contains(a) && made.contains(b) && a != b implies now[a] != now[b] by {
                        assert(visits.contains_key(a) && visits.contains_key(b));
                    }
                    assert forall|edge: (int, int)| #[trigger] now.contains_key(edge) implies {
                        &&& is_followed(walked, edge)
                        &&& 0 <= now[edge] < walked.len()
                        &&& walked[now[edge]] == followed(*e, walked, edge)
                        &&& made.contains(edge) || is_answer(
                            walked[now[edge]],
                            followed(*e, walked, edge),
                            true,
                        )
                    } by {
                        if edge != origin {
                            assert(visits.contains_key(edge));
                        }
                    }
                    assert forall|i: int| 0 <= i < rest.len() implies {
                        &&& comes_to(*e, *#[trigger] rest[i])
                        &&& is_followed(walked, others[i])
                        &&& *rest[i] == followed(*e, walked, others[i])
                        &&& !now.contains_key(others[i])
                    } by {
                        if others[i] == origin {
                            assert(others.contains(origin));
                        }
                    }
                    visits = now;
                }
                continue ;
            }
            seen.push(x.copy());
            proof {
                assert(seen@ =~= walked.push(*x));
                lemma_operand_count_prefix(walked, seen@, walked.len());
                assert forall|i: int, k: int|
                    #![trigger seen@[i], seen@[k]]
                    0 <= i < k < seen@.len() implies is_answer(seen@[i], seen@[k], false) by {
                    assert(seen@[i] == walked[i]);
                    if k < walked.len() {
                        assert(seen@[k] == walked[k]);
                    }
                }
                assert forall|k: int| 0 <= k < seen@.len() implies is_composite(
                    (#[trigger] seen@[k])@,
                ) && comes_to(*e, seen@[k]) by {
                    if k < walked.len() {
                        assert(seen@[k] == walked[k]);
                    }
                }
                assert forall|i: int| 0 <= i < others.len() implies (#[trigger] others[i]).0
                    < walked.len() by {
                    assert(comes_to(*e, *rest[i]));
                }
                lemma_walked_more(*e, walked, *x, visits, made, rest, others, origin);
                visits = visits.insert(origin, walked.len() as int);
                made = made.insert(origin);
                assert forall|edge: (int, int)|
                    is_followed(seen@, edge) && is_composite(
                        (#[trigger] followed(*e, seen@, edge))@,
                    ) implies visits.contains_key(edge) || others.contains(edge) || edge.0
                    == walked.len() by {
                    if edge.0 != walked.len() {
                        assert(is_followed(walked, edge));
                        if edge != start() {
                            assert(seen@[edge.0] == walked[edge.0]);
                        }
                        assert(followed(*e, seen@, edge) == followed(*e, walked, edge));
                    }
                }
            }
            let ghost n = walked.len() as int;
            let ghost settled = visits;
            let mut c: usize = 0;
            while c < children.len()
                invariant
                    children@ == parts(*x),
                    is_composite(x@),
                    comes_to(*e, *x),
                    c <= children@.len(),
                    is_walk(*e, seen@),
                    seen@ == walked.push(*x),
                    n == walked.len(),
                    visits == settled,
                    are_visits(*e, seen@, visits, made),
                    forall|edge: (int, int)| #[trigger]
                        visits.contains_key(edge) ==> edge.0 < n,
                    are_left(*e, seen@, visits, stack@, origins),
                    forall|i: int|
                        0 <= i < origins.len() ==> (#[trigger] origins[i]).0 < n || (origins[i].0
                            == n && origins[i].1 < c),
                    forall|edge: (int, int)|
                        is_followed(seen@, edge) && is_composite(
                            (#[trigger] followed(*e, seen@, edge))@,
                        ) ==> visits.contains_key(edge) || origins.contains(edge) || (edge.0 == n
                            && edge.1 >= c),
                    stack_size(stack@) == stack_size(rest) + expressions_size(
                        views(children@),
                        c as nat,
                    ),
                    walk_steps(seen@) == walk_steps(walked) + children@.len(),
                    is_run::<A>(old(work).answers(), work.answers(), None),
                    work.answers().len() == old(work).answers().len() + walk_steps(walked) + c,
                decreases children@.len() - c,
            {
                if let Err(stop) = work.take_step() {
                    return Err(stop);
                }
                let ghost shorter = stack@;
                let ghost fewer = origins;
                stack.push(&children[c]);
                proof {
                    let child = children@[c as int];
                    let edge = (n, c as int);
                    origins = fewer.push(edge);
                    assert(stack@.drop_last() =~= shorter);
                    assert(parts(*x)[c as int] == child);
                    assert(seen@[n] == *x);
                    assert(followed(*e, seen@, edge) == child);
                    lemma_comes_further(*e, *x, child);
                    assert forall|i: int| 0 <= i < stack@.len() implies {
                        &&& comes_to(*e, *#[trigger] stack@[i])
                        &&& is_followed(seen@, origins[i])
                        &&& *stack@[i] == followed(*e, seen@, origins[i])
                        &&& !visits.contains_key(origins[i])
                    } by {
                        if i < shorter.len() {
                            assert(stack@[i] == shorter[i]);
                            assert(origins[i] == fewer[i]);
                        }
                    }
                    assert forall|i: int, j: int|
                        #![trigger origins[i], origins[j]]
                        0 <= i < j < origins.len() implies origins[i] != origins[j] by {
                        assert(origins[i] == fewer[i]);
                        if j < fewer.len() {
                            assert(origins[j] == fewer[j]);
                        }
                    }
                    assert forall|other: (int, int)|
                        is_followed(seen@, other) && is_composite(
                            (#[trigger] followed(*e, seen@, other))@,
                        ) implies visits.contains_key(other) || origins.contains(other) || (other.0
                        == n && other.1 >= c + 1) by {
                        if fewer.contains(other) {
                            let i = choose|i: int| 0 <= i < fewer.len() && fewer[i] == other;
                            assert(origins[i] == other);
                        }
                        if other == edge {
                            assert(origins[fewer.len() as int] == other);
                        }
                    }
                    assert(views(children@)[c as int] == child@);
                }
                c = c + 1;
            }
            proof {
                lemma_parts(*x);
                assert forall|edge: (int, int)|
                    is_followed(seen@, edge) && is_composite(
                        (#[trigger] followed(*e, seen@, edge))@,
                    ) implies visits.contains_key(edge) || origins.contains(edge) by {
                    if edge.0 == n {
                        assert(seen@[n] == *x);
                    }
                }
            }
        }
    }
    proof {
        assert forall|edge: (int, int)|
            is_followed(seen@, edge) && is_composite((#[trigger] followed(*e, seen@, edge))@)
                implies visits.contains_key(edge) by {
            assert(!origins.contains(edge));
        }
    }
    Ok(())
}

proof fn lemma_comes_further(e: Expression, x: Expression, child: Expression)
    requires
        comes_to(e, x),
        is_composite(x@),
        parts(x).contains(child),
    ensures
        comes_to(e, child),
{
    let path = choose|path: Seq<Expression>| #[trigger]
        is_path(path) && path.first() == e && path.last() == x;
    let longer = path.push(child);
    assert forall|k: int| 0 <= k < longer.len() - 1 implies is_composite((#[trigger] longer[k])@)
        && parts(longer[k]).contains(longer[k + 1]) by {
        assert(longer[k] == path[k]);
        if k < path.len() - 1 {
            assert(longer[k + 1] == path[k + 1]);
        }
    }
    assert(is_path(longer));
    assert(longer.first() == e && longer.last() == child);
}

} // verus!
