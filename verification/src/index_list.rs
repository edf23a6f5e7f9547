//! Sorted lists of indices.

use vstd::prelude::*;

verus! {

pub open spec fn increasing(s: Seq<usize>) -> bool {
    forall|i: int, j: int| #![trigger s[i], s[j]] 0 <= i < j < s.len() ==> s[i] < s[j]
}

fn insert_sorted(list: &mut Vec<usize>, index: usize)
    requires
        increasing(old(list)@),
    ensures
        increasing(final(list)@),
        final(list)@.to_set() == old(list)@.to_set().insert(index),
{
    let ghost before = list@;
    let mut at: usize = 0;
    while at < list.len() && list[at] < index
        invariant
            at <= list@.len(),
            list@ == before,
            forall|k: int| 0 <= k < at ==> #[trigger] list@[k] < index,
        decreases list@.len() - at,
    {
        at = at + 1;
    }
    if at < list.len() && list[at] == index {
        assert(before.to_set().insert(index) =~= before.to_set());
        return ;
    }
    list.insert(at, index);
    proof {
        assert(list@ == before.insert(at as int, index));
        assert forall|x: usize| list@.to_set().contains(x) <==> before.to_set().insert(
            index,
        ).contains(x) by {
            if before.contains(x) {
                let k = choose|k: int| 0 <= k < before.len() && before[k] == x;
                if k < at {
                    assert(list@[k] == x);
                } else {
                    assert(list@[k + 1] == x);
                }
            }
            assert(list@[at as int] == index);
            if list@.contains(x) {
                let k = choose|k: int| 0 <= k < list@.len() && list@[k] == x;
                if k < at {
                    assert(before[k] == x);
                } else if k > at {
                    assert(before[k - 1] == x);
                }
            }
        }
        assert(list@.to_set() =~= before.to_set().insert(index));
        assert forall|i: int, j: int|
            #![trigger list@[i], list@[j]]
            0 <= i < j < list@.len() implies list@[i] < list@[j] by {
            if j < at {
                assert(list@[i] == before[i] && list@[j] == before[j]);
            } else if i < at && j == at {
                assert(list@[i] == before[i]);
            } else if i < at {
                assert(list@[i] == before[i] && list@[j] == before[j - 1]);
            } else if i == at {
                assert(list@[j] == before[j - 1]);
                assert(before[at as int] > index);
            } else {
                assert(list@[i] == before[i - 1] && list@[j] == before[j - 1]);
            }
        }
    }
}

/// The given indices in increasing order, each once.
pub fn sorted_distinct(indices: &Vec<usize>) -> (r: Vec<usize>)
    ensures
        increasing(r@),
        r@.to_set() == indices@.to_set(),
{
    let mut r: Vec<usize> = Vec::new();
    let mut i: usize = 0;
    assert(r@.to_set() =~= indices@.take(0).to_set());
    while i < indices.len()
        invariant
            i <= indices@.len(),
            increasing(r@),
            r@.to_set() == indices@.take(i as int).to_set(),
        decreases indices@.len() - i,
    {
        insert_sorted(&mut r, indices[i]);
        proof {
            let before = indices@.take(i as int);
            let after = indices@.take(i + 1);
            assert(after =~= before.push(indices@[i as int]));
            assert forall|x: usize| after.to_set().contains(x) <==> before.to_set().insert(
                indices@[i as int],
            ).contains(x) by {
                if before.contains(x) {
                    let k = choose|k: int| 0 <= k < before.len() && before[k] == x;
                    assert(after[k] == x);
                }
                assert(after[i as int] == indices@[i as int]);
                if after.contains(x) {
                    let k = choose|k: int| 0 <= k < after.len() && after[k] == x;
                    if k < i {
                        assert(before[k] == x);
                    }
                }
            }
            assert(after.to_set() =~= before.to_set().insert(indices@[i as int]));
        }
        i = i + 1;
    }
    assert(indices@.take(i as int) =~= indices@);
    r
}

/// Every list of indices has an increasing list of the same indices.
pub proof fn increasing_list_exists(indices: Seq<usize>) -> (s: Seq<usize>)
    ensures
        increasing(s),
        s.to_set() == indices.to_set(),
    decreases indices.len(),
{
    if indices.len() == 0 {
        indices
    } else {
        let x = indices.last();
        let rest = increasing_list_exists(indices.drop_last());
        let s = with_index(rest, x);
        lemma_with_index(rest, x);
        assert forall|v: usize| s.to_set().contains(v) <==> indices.to_set().contains(v) by {
            if indices.contains(v) {
                let k = choose|k: int| 0 <= k < indices.len() && indices[k] == v;
                if k < indices.len() - 1 {
                    assert(indices.drop_last()[k] == v);
                    assert(indices.drop_last().to_set().contains(v));
                }
            }
            if indices.drop_last().contains(v) {
                let k = choose|k: int|
                    0 <= k < indices.drop_last().len() && indices.drop_last()[k] == v;
                assert(indices[k] == v);
            }
            assert(indices[indices.len() - 1] == x);
            assert(rest.to_set().contains(v) <==> indices.drop_last().to_set().contains(v));
        }
        assert(s.to_set() =~= indices.to_set());
        s
    }
}

/// An increasing list with one more index.
spec fn with_index(s: Seq<usize>, x: usize) -> Seq<usize>
    decreases s.len(),
{
    if s.len() == 0 || s.last() < x {
        s.push(x)
    } else if s.last() == x {
        s
    } else {
        with_index(s.drop_last(), x).push(s.last())
    }
}

proof fn lemma_with_index(s: Seq<usize>, x: usize)
    requires
        increasing(s),
    ensures
        increasing(with_index(s, x)),
        with_index(s, x).to_set() == s.to_set().insert(x),
    decreases s.len(),
{
    let r = with_index(s, x);
    if s.len() == 0 || s.last() < x {
        assert forall|i: int, j: int|
            #![trigger r[i], r[j]]
            0 <= i < j < r.len() implies r[i] < r[j] by {
            if j < s.len() {
                assert(s[i] < s[j]);
            } else if i < s.len() - 1 {
                assert(s[i] < s[s.len() - 1]);
            }
        }
        lemma_push_to_set(s, x);
    } else if s.last() == x {
        assert(s.to_set().contains(s[s.len() - 1]));
        assert(s.to_set().insert(x) =~= s.to_set());
    } else {
        let t = s.drop_last();
        assert(increasing(t)) by {
            assert forall|i: int, j: int|
                #![trigger t[i], t[j]]
                0 <= i < j < t.len() implies t[i] < t[j] by {
                assert(s[i] < s[j]);
            }
        }
        lemma_with_index(t, x);
        let u = with_index(t, x);
        assert forall|i: int, j: int|
            #![trigger r[i], r[j]]
            0 <= i < j < r.len() implies r[i] < r[j] by {
            if j < u.len() {
                assert(u[i] < u[j]);
            } else {
                assert(u.to_set().contains(u[i]));
                if u[i] != x {
                    assert(t.contains(u[i]));
                    let k = choose|k: int| 0 <= k < t.len() && t[k] == u[i];
                    assert(s[k] < s[s.len() - 1]);
                }
            }
        }
        lemma_push_to_set(u, s.last());
        lemma_push_to_set(t, s.last());
        assert(t.push(s.last()) =~= s);
        assert(r.to_set() =~= s.to_set().insert(x));
    }
}

pub(crate) proof fn lemma_push_to_set(s: Seq<usize>, x: usize)
    ensures
        s.push(x).to_set() == s.to_set().insert(x),
{
    let t = s.push(x);
    assert forall|v: usize| t.to_set().contains(v) <==> s.to_set().insert(x).contains(v) by {
        if s.contains(v) {
            let k = choose|k: int| 0 <= k < s.len() && s[k] == v;
            assert(t[k] == v);
        }
        assert(t[s.len() as int] == x);
        if t.contains(v) {
            let k = choose|k: int| 0 <= k < t.len() && t[k] == v;
            if k < s.len() {
                assert(s[k] == v);
            }
        }
    }
    assert(t.to_set() =~= s.to_set().insert(x));
}

proof fn lemma_below_first(a: Seq<usize>, b: Seq<usize>)
    requires
        increasing(a),
        increasing(b),
        a.to_set() == b.to_set(),
        a.len() > 0,
    ensures
        b.len() > 0,
        a[0] == b[0],
{
    assert(a.to_set().contains(a[0]));
    assert(b.contains(a[0]));
    let k = choose|k: int| 0 <= k < b.len() && b[k] == a[0];
    assert(b.to_set().contains(b[0]));
    assert(a.contains(b[0]));
    let m = choose|m: int| 0 <= m < a.len() && a[m] == b[0];
    if k > 0 {
        assert(b[0] < b[k]);
        if m > 0 {
            assert(a[0] < a[m]);
        }
    }
}

/// A set of indices has one increasing list.
pub proof fn increasing_list_is_unique(a: Seq<usize>, b: Seq<usize>)
    requires
        increasing(a),
        increasing(b),
        a.to_set() == b.to_set(),
    ensures
        a == b,
    decreases a.len(),
{
    if a.len() == 0 {
        if b.len() > 0 {
            assert(b.to_set().contains(b[0]));
            assert(a.contains(b[0]));
        }
        assert(a =~= b);
    } else {
        lemma_below_first(a, b);
        let x = a.skip(1);
        let y = b.skip(1);
        assert forall|v: usize| x.to_set().contains(v) <==> y.to_set().contains(v) by {
            if x.contains(v) {
                let k = choose|k: int| 0 <= k < x.len() && x[k] == v;
                assert(a[k + 1] == v && a[0] < a[k + 1]);
                assert(a.to_set().contains(v));
                assert(b.contains(v));
                let m = choose|m: int| 0 <= m < b.len() && b[m] == v;
                assert(y[m - 1] == v);
            }
            if y.contains(v) {
                let k = choose|k: int| 0 <= k < y.len() && y[k] == v;
                assert(b[k + 1] == v && b[0] < b[k + 1]);
                assert(b.to_set().contains(v));
                assert(a.contains(v));
                let m = choose|m: int| 0 <= m < a.len() && a[m] == v;
                assert(x[m - 1] == v);
            }
        }
        assert(x.to_set() =~= y.to_set());
        assert(increasing(x)) by {
            assert forall|i: int, j: int|
                #![trigger x[i], x[j]]
                0 <= i < j < x.len() implies x[i] < x[j] by {
                assert(a[i + 1] < a[j + 1]);
            }
        }
        assert(increasing(y)) by {
            assert forall|i: int, j: int|
                #![trigger y[i], y[j]]
                0 <= i < j < y.len() implies y[i] < y[j] by {
                assert(b[i + 1] < b[j + 1]);
            }
        }
        increasing_list_is_unique(x, y);
        assert(a =~= seq![a[0]] + x);
        assert(b =~= seq![b[0]] + y);
    }
}

} // verus!
