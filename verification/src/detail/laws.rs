//! What holds of a partition whatever is pushed to it.

use vstd::prelude::*;
use crate::commit::CommitView;
use crate::detail::graph::closed;
use crate::detail::graph::is_parent;
use crate::detail::graph::keyed;
use crate::detail::graph::lemma_tips_after;
use crate::detail::graph::tips_exact;
use crate::detail::part::PartView;
use crate::detail::part::added;
use crate::detail::part::commit_pushed;
use crate::detail::part::state_pushed;
use crate::error::PatchOp;
use crate::patch::applied;
use crate::patch::commit_of;
use crate::state::MutView;
use crate::state::StateView;
use crate::state::mutable_of;
use crate::state::state_of;
use crate::sum::Sum;

verus! {

/// Pushing a state that was made from a known state, and not changed since,
/// pushes nothing: the result is `false`, and the partition holds what it
/// held.
pub proof fn law_push_unchanged(
    v: PartView,
    key: Sum,
    extra: Option<Seq<char>>,
    timestamp: i64,
)
    requires
        v.states.contains_key(key),
        v.states[key].statesum == key,
    ensures
        state_pushed(v, mutable_of(v.states[key]), extra, timestamp) == (
            Ok::<bool, PatchOp>(false),
            v,
        ),
{
}

/// A state that comes to a partition keeps the tips exact: where the tips
/// were the known states that are no parent of a known state, and where
/// the new state is not known yet, is not its own parent and no known state
/// names it as a parent, the same holds afterwards.
pub proof fn law_tips_exact(v: PartView, c: CommitView, s: StateView)
    requires
        keyed(v.states),
        tips_exact(v.states, v.tips),
        !v.states.contains_key(s.statesum),
        !s.parents.contains(s.statesum),
        forall|k: Sum| !#[trigger] is_parent(v.states, s.statesum, k),
    ensures
        keyed(added(v, c, s).states),
        tips_exact(added(v, c, s).states, added(v, c, s).tips),
{
    let w = added(v, c, s);
    let sum = s.statesum;
    lemma_tips_after(v.tips, s.parents, sum);
    assert(w.states == v.states.insert(sum, s));
    assert forall|x: Sum|
        w.tips.contains(x) <==> (w.states.contains_key(x) && forall|k: Sum|
            !#[trigger] is_parent(w.states, x, k)) by {
        if x == sum {
            assert(w.tips.contains(x));
            assert forall|k: Sum| !#[trigger] is_parent(w.states, x, k) by {
                if k != sum && is_parent(w.states, x, k) {
                    assert(is_parent(v.states, x, k));
                }
            }
        } else {
            let was = v.states.contains_key(x) && forall|k: Sum|
                !#[trigger] is_parent(v.states, x, k);
            assert(v.tips.contains(x) <==> was);
            if w.tips.contains(x) {
                assert(v.tips.contains(x) && !s.parents.contains(x));
                assert forall|k: Sum| !#[trigger] is_parent(w.states, x, k) by {
                    if k != sum && is_parent(w.states, x, k) {
                        assert(is_parent(v.states, x, k));
                    }
                }
            }
            if w.states.contains_key(x) && forall|k: Sum| !#[trigger] is_parent(w.states, x, k) {
                assert(!is_parent(w.states, x, sum));
                assert(!s.parents.contains(x));
                assert forall|k: Sum| !#[trigger] is_parent(v.states, x, k) by {
                    if is_parent(v.states, x, k) {
                        assert(k != sum);
                        assert(is_parent(w.states, x, k));
                    }
                }
                assert(v.tips.contains(x));
            }
        }
    }
}

/// A state that comes to a partition keeps the history closed: where every
/// parent of a known state was known and the parents of the new state are
/// known, every parent of a known state is known afterwards.
pub proof fn law_closed_kept(v: PartView, c: CommitView, s: StateView)
    requires
        closed(v.states),
        forall|i: int| 0 <= i < s.parents.len() ==> v.states.contains_key(#[trigger] s.parents[i]),
    ensures
        closed(added(v, c, s).states),
{
    let w = added(v, c, s);
    let sum = s.statesum;
    assert forall|p: Sum, k: Sum| #[trigger] is_parent(w.states, p, k) implies w.states.contains_key(
        p,
    ) by {
        if v.states.contains_key(k) {
            assert(is_parent(v.states, p, k));
        } else {
            let i = choose|i: int| 0 <= i < s.parents.len() && s.parents[i] == p;
            assert(v.states.contains_key(s.parents[i]));
        }
    }
}

/// Pushing a commit keeps the tips exact, where no known state names the
/// state of the commit as a parent.
pub proof fn law_tips_after_commit(v: PartView, c: CommitView)
    requires
        keyed(v.states),
        tips_exact(v.states, v.tips),
        forall|k: Sum| !#[trigger] is_parent(v.states, c.statesum, k),
    ensures
        keyed(commit_pushed(v, c).1.states),
        tips_exact(commit_pushed(v, c).1.states, commit_pushed(v, c).1.tips),
{
    if commit_pushed(v, c).0 is Ok {
        let s = applied(v.states[c.parents[0]], c)->0;
        law_tips_exact(v, c, s);
    }
}

/// Pushing a commit whose parents are all known keeps a closed history
/// closed and its tips exact.
pub proof fn law_exact_after_commit(v: PartView, c: CommitView)
    requires
        keyed(v.states),
        closed(v.states),
        tips_exact(v.states, v.tips),
        forall|i: int| 0 <= i < c.parents.len() ==> v.states.contains_key(#[trigger] c.parents[i]),
    ensures
        keyed(commit_pushed(v, c).1.states),
        closed(commit_pushed(v, c).1.states),
        tips_exact(commit_pushed(v, c).1.states, commit_pushed(v, c).1.tips),
{
    if commit_pushed(v, c).0 is Ok {
        let s = applied(v.states[c.parents[0]], c)->0;
        assert forall|k: Sum| !#[trigger] is_parent(v.states, s.statesum, k) by {}
        law_tips_exact(v, c, s);
        law_closed_kept(v, c, s);
    }
}

/// Pushing a state keeps the tips exact, where the state that is made of it
/// is not known yet and no known state names it as a parent.
pub proof fn law_tips_after_state(
    v: PartView,
    m: MutView,
    extra: Option<Seq<char>>,
    timestamp: i64,
)
    requires
        keyed(v.states),
        tips_exact(v.states, v.tips),
        state_pushed(v, m, extra, timestamp).0 == Ok::<bool, PatchOp>(true) ==> ({
            let c = commit_of(v.states[m.parent], m, timestamp, extra);
            !v.states.contains_key(c.statesum) && forall|k: Sum|
                !#[trigger] is_parent(v.states, c.statesum, k)
        }),
    ensures
        keyed(state_pushed(v, m, extra, timestamp).1.states),
        tips_exact(
            state_pushed(v, m, extra, timestamp).1.states,
            state_pushed(v, m, extra, timestamp).1.tips,
        ),
{
    if state_pushed(v, m, extra, timestamp).0 == Ok::<bool, PatchOp>(true) {
        let parent = v.states[m.parent];
        let c = commit_of(parent, m, timestamp, extra);
        let s = state_of(m.part_id, m.elts, c.parents, c.meta);
        assert(s.statesum == c.statesum);
        assert(s.parents == seq![parent.statesum]);
        assert(parent.statesum == m.parent);
        assert(s.parents[0] == m.parent);
        assert(!s.parents.contains(s.statesum)) by {
            if s.parents.contains(s.statesum) {
                let i = choose|i: int| 0 <= i < s.parents.len() && s.parents[i] == s.statesum;
                assert(s.parents[i] == m.parent);
            }
        }
        law_tips_exact(v, c, s);
    }
}

/// A partition that knows one state without parents, as its only tip, has
/// exact tips: so it is after its creation.
pub proof fn law_tips_exact_at_first(s: StateView)
    requires
        s.parents.len() == 0,
    ensures
        keyed(map![s.statesum => s]),
        closed(map![s.statesum => s]),
        tips_exact(map![s.statesum => s], seq![s.statesum]),
{
    let states = map![s.statesum => s];
    let tips = seq![s.statesum];
    assert forall|p: Sum, c: Sum| !#[trigger] is_parent(states, p, c) by {
        if is_parent(states, p, c) {
            let i = choose|i: int| 0 <= i < s.parents.len() && s.parents[i] == p;
        }
    }
    assert forall|x: Sum|
        tips.contains(x) <==> (states.contains_key(x) && forall|c: Sum|
            !#[trigger] is_parent(states, x, c)) by {
        if tips.contains(x) {
            let i = choose|i: int| 0 <= i < tips.len() && tips[i] == x;
        }
        if states.contains_key(x) {
            assert(tips[0] == x);
        }
    }
}

} // verus!
