//! The graph of the states of a partition: which states are known, which of
//! them are tips, and how a new state changes both.

use vstd::prelude::*;
use crate::state::StateView;
use crate::sum::Sum;

verus! {

/// The tips that are left when the states `gone` have a child.
pub open spec fn without(tips: Seq<Sum>, gone: Seq<Sum>) -> Seq<Sum> {
    tips.filter(|t: Sum| !gone.contains(t))
}

/// The tips after a state with the sum `sum` and the parents `parents` has
/// come: the parents are tips no more, and the new state is one.
pub open spec fn tips_after(tips: Seq<Sum>, parents: Seq<Sum>, sum: Sum) -> Seq<Sum> {
    let t = without(tips, parents);
    if t.contains(sum) {
        t
    } else {
        t.push(sum)
    }
}

/// The states after the state `s` has come: `s` is known under its sum,
/// unless a state was known under that sum already.
pub open spec fn states_after(states: Map<Sum, StateView>, s: StateView) -> Map<Sum, StateView> {
    if states.contains_key(s.statesum) {
        states
    } else {
        states.insert(s.statesum, s)
    }
}

/// Whether `p` is a parent of the state that is known under `c`.
pub open spec fn is_parent(states: Map<Sum, StateView>, p: Sum, c: Sum) -> bool {
    states.contains_key(c) && states[c].parents.contains(p)
}

/// Whether the tips are the known states that are no parent of a known
/// state.
pub open spec fn tips_exact(states: Map<Sum, StateView>, tips: Seq<Sum>) -> bool {
    forall|s: Sum|
        tips.contains(s) <==> (states.contains_key(s) && forall|c: Sum|
            !#[trigger] is_parent(states, s, c))
}

/// Whether every parent of a known state is known.
pub open spec fn closed(states: Map<Sum, StateView>) -> bool {
    forall|p: Sum, c: Sum| #[trigger] is_parent(states, p, c) ==> states.contains_key(p)
}

/// Whether every state is known under its own sum.
pub open spec fn keyed(states: Map<Sum, StateView>) -> bool {
    forall|k: Sum| states.contains_key(k) ==> (#[trigger] states[k]).statesum == k
}

/// What is in the tips after a state has come.
pub proof fn lemma_tips_after(tips: Seq<Sum>, parents: Seq<Sum>, sum: Sum)
    ensures
        forall|s: Sum|
            #[trigger] tips_after(tips, parents, sum).contains(s) <==> (s == sum || (tips.contains(
                s,
            ) && !parents.contains(s))),
        tips.no_duplicates() ==> tips_after(tips, parents, sum).no_duplicates(),
{
    let pred = |t: Sum| !parents.contains(t);
    let t = without(tips, parents);
    assert forall|s: Sum| t.contains(s) <==> (tips.contains(s) && !parents.contains(s)) by {
        lemma_filter_contains(tips, pred, s);
    }
    assert forall|s: Sum|
        #[trigger] tips_after(tips, parents, sum).contains(s) <==> (s == sum || (tips.contains(s)
            && !parents.contains(s))) by {
        if t.contains(sum) {
        } else {
            let u = t.push(sum);
            if u.contains(s) {
                let i = choose|i: int| 0 <= i < u.len() && u[i] == s;
                if i < t.len() {
                    assert(t[i] == s);
                }
            }
            if s == sum {
                assert(u[t.len() as int] == sum);
            }
            if t.contains(s) {
                let i = choose|i: int| 0 <= i < t.len() && t[i] == s;
                assert(u[i] == s);
            }
        }
    }
    if tips.no_duplicates() {
        lemma_filter_distinct(tips, pred);
        if !t.contains(sum) {
            let u = t.push(sum);
            assert forall|i: int, j: int| 0 <= i < j < u.len() implies u[i] != u[j] by {
                if j == t.len() {
                    assert(t[i] == u[i]);
                    if u[i] == sum {
                        assert(t.contains(sum));
                    }
                } else {
                    assert(t[i] != t[j]);
                }
            }
        }
    }
}

/// What a filtered sequence holds.
pub proof fn lemma_filter_contains(s: Seq<Sum>, pred: spec_fn(Sum) -> bool, x: Sum)
    ensures
        s.filter(pred).contains(x) <==> (s.contains(x) && pred(x)),
    decreases s.len(),
{
    reveal(Seq::filter);
    if s.len() > 0 {
        let t = s.drop_last();
        lemma_filter_contains(t, pred, x);
        let f = s.filter(pred);
        let ft = t.filter(pred);
        if pred(s.last()) {
            assert(f == ft.push(s.last()));
            if f.contains(x) {
                let i = choose|i: int| 0 <= i < f.len() && f[i] == x;
                if i < ft.len() {
                    assert(ft[i] == x);
                    assert(ft.contains(x));
                }
            }
            if ft.contains(x) {
                let i = choose|i: int| 0 <= i < ft.len() && ft[i] == x;
                assert(f[i] == x);
            }
            if x == s.last() {
                assert(f[ft.len() as int] == x);
            }
        }
        if s.contains(x) {
            let i = choose|i: int| 0 <= i < s.len() && s[i] == x;
            if i < t.len() {
                assert(t[i] == x);
                assert(t.contains(x));
            }
        }
        if t.contains(x) {
            let i = choose|i: int| 0 <= i < t.len() && t[i] == x;
            assert(s[i] == x);
        }
        assert(s[s.len() - 1] == s.last());
    }
}

/// A filtered sequence without duplicates has none.
pub proof fn lemma_filter_distinct(s: Seq<Sum>, pred: spec_fn(Sum) -> bool)
    requires
        s.no_duplicates(),
    ensures
        s.filter(pred).no_duplicates(),
    decreases s.len(),
{
    reveal(Seq::filter);
    if s.len() > 0 {
        let t = s.drop_last();
        assert(t.no_duplicates()) by {
            assert forall|i: int, j: int| 0 <= i < t.len() && 0 <= j < t.len() && i != j implies t[i]
                != t[j] by {
                assert(s[i] != s[j]);
            }
        }
        lemma_filter_distinct(t, pred);
        let ft = t.filter(pred);
        if pred(s.last()) {
            let f = ft.push(s.last());
            assert forall|i: int, j: int| 0 <= i < f.len() && 0 <= j < f.len() && i != j implies f[i]
                != f[j] by {
                if i < ft.len() && j < ft.len() {
                    assert(ft[i] != ft[j]);
                } else {
                    let k = if i < ft.len() {
                        i
                    } else {
                        j
                    };
                    assert(ft.contains(ft[k]));
                    lemma_filter_contains(t, pred, ft[k]);
                    let m = choose|m: int| 0 <= m < t.len() && t[m] == ft[k];
                    assert(s[m] != s[s.len() - 1]);
                }
            }
        }
    }
}

} // verus!
