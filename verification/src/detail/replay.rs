//! Replay of commit logs: the states that the commits of a log lead to are
//! made, one after the other, from the states that are known.

use vstd::prelude::*;
use std::collections::VecDeque;
use hashindexed::HashIndexed;
use crate::commit::Commit;
use crate::commit::CommitView;
use crate::commit::commit_views;
use crate::detail::graph::lemma_tips_after;
use crate::detail::graph::tips_after;
use crate::detail::index::SumKey;
use crate::detail::index::index_contains;
use crate::detail::index::index_get;
use crate::detail::index::index_insert;
use crate::detail::index::index_states;
use crate::detail::part::capped;
use crate::detail::part::state_views;
use crate::detail::part::tips_without;
use crate::error::Error;
use crate::error::ReplayError;
use crate::ids::PartId;
use crate::patch::applied;
use crate::patch::sums_contain;
use crate::state::PartState;
use crate::state::StateView;
use crate::sum::Sum;

verus! {

/// What a replay leaves: the known states, the tips, the commits whose first
/// parent is not known, and the number of changes that were applied.
pub struct Replayed {
    pub states: Map<Sum, StateView>,
    pub tips: Seq<Sum>,
    pub left: Seq<CommitView>,
    pub edits: usize,
}

/// The error of a replay.
pub open spec fn replay_fault() -> ReplayError {
    ReplayError { msg: "a commit does not lead from its parent to the state that it names" }
}

/// One pass over the commits of `queue` from place `k` on. A commit whose
/// state is known is passed over. A commit whose first parent is known is
/// applied to it: the state that it leads to is known from then on and is a
/// tip, and its parents are tips no more. A commit whose first parent is not
/// known is left for the next pass. The pass fails at the first commit that
/// does not lead from its first parent to the state that it names.
pub open spec fn replay_pass(
    states: Map<Sum, StateView>,
    tips: Seq<Sum>,
    queue: Seq<CommitView>,
    k: int,
    left: Seq<CommitView>,
    edits: usize,
) -> Result<Replayed, ReplayError>
    decreases queue.len() - k,
{
    if k < 0 || k >= queue.len() {
        Ok(Replayed { states, tips, left, edits })
    } else {
        let c = queue[k];
        if states.contains_key(c.statesum) {
            replay_pass(states, tips, queue, k + 1, left, edits)
        } else if !states.contains_key(c.parents[0]) {
            replay_pass(states, tips, queue, k + 1, left.push(c), edits)
        } else {
            match applied(states[c.parents[0]], c) {
                None => Err(replay_fault()),
                Some(s) => replay_pass(
                    states.insert(s.statesum, s),
                    tips_after(tips, s.parents, s.statesum),
                    queue,
                    k + 1,
                    left,
                    capped(edits, c.changes.len() as usize),
                ),
            }
        }
    }
}

/// Passes over the commits of `queue`, again and again over those that were
/// left, until a pass leaves as many as it was given.
pub open spec fn replay_all(
    states: Map<Sum, StateView>,
    tips: Seq<Sum>,
    queue: Seq<CommitView>,
    edits: usize,
) -> Result<Replayed, ReplayError>
    decreases queue.len(),
{
    match replay_pass(states, tips, queue, 0, Seq::empty(), edits) {
        Err(e) => Err(e),
        Ok(r) => if r.left.len() >= queue.len() {
            Ok(r)
        } else {
            replay_all(r.states, r.tips, r.left, r.edits)
        },
    }
}

/// A pass over commits leaves tips where there were tips.
pub proof fn lemma_pass_keeps_tips(
    states: Map<Sum, StateView>,
    tips: Seq<Sum>,
    queue: Seq<CommitView>,
    k: int,
    left: Seq<CommitView>,
    edits: usize,
)
    ensures
        replay_pass(states, tips, queue, k, left, edits) matches Ok(r) ==> (r.tips.len() > 0
            || tips.len() == 0) && r.left.len() >= left.len(),
    decreases queue.len() - k,
{
    if 0 <= k < queue.len() {
        let c = queue[k];
        if states.contains_key(c.statesum) {
            lemma_pass_keeps_tips(states, tips, queue, k + 1, left, edits);
        } else if !states.contains_key(c.parents[0]) {
            lemma_pass_keeps_tips(states, tips, queue, k + 1, left.push(c), edits);
        } else {
            match applied(states[c.parents[0]], c) {
                None => {},
                Some(s) => {
                    let t = tips_after(tips, s.parents, s.statesum);
                    lemma_tips_after(tips, s.parents, s.statesum);
                    assert(t.contains(s.statesum));
                    lemma_pass_keeps_tips(
                        states.insert(s.statesum, s),
                        t,
                        queue,
                        k + 1,
                        left,
                        capped(edits, c.changes.len() as usize),
                    );
                }
            }
        }
    }
}

/// A replay never leaves a partition without a tip that had one: where
/// there were tips before the replay, there are tips after it.
pub proof fn law_replay_keeps_tips(
    states: Map<Sum, StateView>,
    tips: Seq<Sum>,
    queue: Seq<CommitView>,
    edits: usize,
)
    ensures
        replay_all(states, tips, queue, edits) matches Ok(r) ==> r.tips.len() > 0 || tips.len()
            == 0,
    decreases queue.len(),
{
    lemma_pass_keeps_tips(states, tips, queue, 0, Seq::empty(), edits);
    match replay_pass(states, tips, queue, 0, Seq::empty(), edits) {
        Err(_) => {},
        Ok(r) => {
            if r.left.len() < queue.len() {
                law_replay_keeps_tips(r.states, r.tips, r.left, r.edits);
            }
        },
    }
}

/// The invariant of the states and tips of a partition: see
/// `Partition::wf`.
pub open spec fn graph_wf(m: Map<Sum, PartState>, tips: Seq<Sum>, part: PartId) -> bool {
    &&& part.wf()
    &&& m.dom().finite()
    &&& forall|k: Sum|
        m.contains_key(k) ==> (#[trigger] m[k]).wf() && m[k].statesum == k && m[k].part_id == part
    &&& tips.no_duplicates()
    &&& forall|i: int| 0 <= i < tips.len() ==> m.contains_key(#[trigger] tips[i])
}

/// Whether every commit of `s` can be written.
pub open spec fn all_wf(s: Seq<Commit>) -> bool {
    forall|i: int| 0 <= i < s.len() ==> (#[trigger] s[i]).wf()
}

/// One pass over `queue`: see `replay_pass`.
fn replay_queue(
    states: &mut HashIndexed<PartState, Sum, SumKey>,
    tips: &mut Vec<Sum>,
    queue: VecDeque<Commit>,
    edits: usize,
    part: PartId,
) -> (r: Result<(VecDeque<Commit>, usize), ReplayError>)
    requires
        graph_wf(index_states(*old(states)), old(tips)@, part),
        all_wf(queue@),
    ensures
        graph_wf(index_states(*final(states)), final(tips)@, part),
        match replay_pass(
            state_views(index_states(*old(states))),
            old(tips)@,
            commit_views(queue@),
            0,
            Seq::empty(),
            edits,
        ) {
            Ok(rp) => r matches Ok(v) && state_views(index_states(*final(states))) == rp.states
                && final(tips)@ == rp.tips && commit_views(v.0@) == rp.left && v.1 == rp.edits
                && all_wf(v.0@),
            Err(e) => r matches Err(x) && x == e,
        },
{
    let mut rest = queue;
    let mut left: VecDeque<Commit> = VecDeque::new();
    let mut count = edits;
    let ghost all = commit_views(queue@);
    let ghost mut k: int = 0;
    let ghost goal = replay_pass(
        state_views(index_states(*states)),
        tips@,
        all,
        0,
        Seq::empty(),
        edits,
    );
    proof {
        assert(commit_views(left@) =~= Seq::empty());
        assert(all.subrange(0, all.len() as int) =~= all);
    }
    while rest.len() > 0
        invariant
            0 <= k <= all.len(),
            all == commit_views(queue@),
            goal == replay_pass(
                state_views(index_states(*old(states))),
                old(tips)@,
                commit_views(queue@),
                0,
                Seq::empty(),
                edits,
            ),
            commit_views(rest@) == all.subrange(k, all.len() as int),
            all_wf(rest@),
            all_wf(left@),
            graph_wf(index_states(*states), tips@, part),
            goal == replay_pass(
                state_views(index_states(*states)),
                tips@,
                all,
                k,
                commit_views(left@),
                count,
            ),
        decreases rest@.len(),
    {
        let ghost before = rest@;
        proof {
            assert(commit_views(before).len() == before.len());
            assert(k < all.len());
        }
        let commit = match rest.pop_front() {
            Some(c) => c,
            None => {
                assert(false);
                return Err(ReplayError { msg: "" });
            },
        };
        proof {
            assert(commit@ == all[k]) by {
                assert(commit_views(before)[0] == before[0]@);
                assert(all.subrange(k, all.len() as int)[0] == all[k]);
            }
            assert(commit_views(rest@) =~= all.subrange(k + 1, all.len() as int)) by {
                assert forall|i: int| 0 <= i < rest@.len() implies commit_views(rest@)[i]
                    == all.subrange(k + 1, all.len() as int)[i] by {
                    assert(rest@[i] == before[i + 1]);
                    assert(commit_views(before)[i + 1] == before[i + 1]@);
                    assert(all.subrange(k, all.len() as int)[i + 1] == all[k + 1 + i]);
                }
            }
            assert(all_wf(rest@)) by {
                assert forall|i: int| 0 <= i < rest@.len() implies (#[trigger] rest@[i]).wf() by {
                    assert(rest@[i] == before[i + 1]);
                }
            }
            assert(commit.wf()) by {
                assert(before[0].wf());
            }
        }
        if index_contains(states, &commit.statesum) {
            proof {
                k = k + 1;
            }
        } else {
            let first_parent = *commit.first_parent();
            let made = match index_get(states, &first_parent) {
                None => None,
                Some(parent) => match commit.apply(parent) {
                    Ok(s) => Some(s),
                    Err(_) => {
                        return Err(
                            ReplayError {
                                msg: "a commit does not lead from its parent to the state that it names",
                            },
                        );
                    },
                },
            };
            match made {
                None => {
                    let ghost was = left@;
                    left.push_back(commit);
                    proof {
                        assert(commit_views(left@) =~= commit_views(was).push(commit@));
                        assert(all_wf(left@)) by {
                            assert forall|i: int| 0 <= i < left@.len() implies (
                            #[trigger] left@[i]).wf() by {
                                if i < was.len() {
                                    assert(left@[i] == was[i]);
                                }
                            }
                        }
                        k = k + 1;
                    }
                },
                Some(state) => {
                    let n = commit.num_changes();
                    count = if n > usize::MAX - count {
                        usize::MAX
                    } else {
                        count + n
                    };
                    let ghost m = index_states(*states);
                    let ghost old_tips = tips@;
                    let ghost sum = state.statesum;
                    let ghost sv = state@;
                    proof {
                        lemma_tips_after(tips@, state.parents@, state.statesum);
                    }
                    let mut next = tips_without(tips, &state.parents);
                    if !sums_contain(&next, &state.statesum) {
                        next.push(state.statesum);
                    }
                    *tips = next;
                    let fresh = index_insert(states, state);
                    proof {
                        let m2 = index_states(*states);
                        assert(state_views(m2) =~= state_views(m).insert(sum, sv));
                        assert forall|i: int| 0 <= i < tips@.len() implies m2.contains_key(
                            #[trigger] tips@[i],
                        ) by {
                            let t = tips@[i];
                            assert(tips@.contains(t));
                            if t != sum {
                                assert(old_tips.contains(t));
                                let j = choose|j: int| 0 <= j < old_tips.len() && old_tips[j] == t;
                                assert(m.contains_key(old_tips[j]));
                            }
                        }
                        k = k + 1;
                    }
                },
            }
        }
    }
    proof {
        assert(k == all.len());
    }
    Ok((left, count))
}

/// Replays the commits of `queue` on the states and tips: see `replay_all`.
/// Gives the number of changes that were applied and the commits that
/// could not be applied because their first parent is not known.
pub fn replay(
    states: &mut HashIndexed<PartState, Sum, SumKey>,
    tips: &mut Vec<Sum>,
    queue: VecDeque<Commit>,
    part: PartId,
) -> (r: Result<(usize, VecDeque<Commit>), Error>)
    requires
        graph_wf(index_states(*old(states)), old(tips)@, part),
        all_wf(queue@),
    ensures
        graph_wf(index_states(*final(states)), final(tips)@, part),
        match replay_all(
            state_views(index_states(*old(states))),
            old(tips)@,
            commit_views(queue@),
            0,
        ) {
            Ok(rp) => r matches Ok(v) && state_views(index_states(*final(states))) == rp.states
                && final(tips)@ == rp.tips && commit_views(v.1@) == rp.left && v.0 == rp.edits
                && all_wf(v.1@),
            Err(e) => r matches Err(x) && x == Error::Replay(e),
        },
{
    let mut rest = queue;
    let mut edits: usize = 0;
    let ghost goal = replay_all(
        state_views(index_states(*states)),
        tips@,
        commit_views(queue@),
        0,
    );
    loop
        invariant
            goal == replay_all(
                state_views(index_states(*old(states))),
                old(tips)@,
                commit_views(queue@),
                0,
            ),
            graph_wf(index_states(*states), tips@, part),
            all_wf(rest@),
            goal == replay_all(
                state_views(index_states(*states)),
                tips@,
                commit_views(rest@),
                edits,
            ),
        decreases rest@.len(),
    {
        let given = rest.len();
        match replay_queue(states, tips, rest, edits, part) {
            Err(e) => {
                return Err(Error::Replay(e));
            },
            Ok((left, done)) => {
                if left.len() >= given {
                    return Ok((done, left));
                }
                rest = left;
                edits = done;
            },
        }
    }
}

/// Replaying a commit on its parent alone gives the parent and the state
/// that the commit leads to, and that state is a tip: for a commit that
/// leads from the parent to the state that it names.
pub proof fn law_replay_single(p: StateView, c: CommitView)
    requires
        applied(p, c) is Some,
        c.parents.len() > 0,
        c.parents[0] == p.statesum,
    ensures
        ({
            let r = replay_all(map![p.statesum => p], seq![p.statesum], seq![c], 0);
            &&& r is Ok
            &&& r->Ok_0.states.contains_key(p.statesum)
            &&& r->Ok_0.states[p.statesum] == p
            &&& r->Ok_0.states.contains_key(c.statesum)
            &&& r->Ok_0.states[c.statesum] == applied(p, c)->0
            &&& r->Ok_0.tips.contains(c.statesum)
            &&& r->Ok_0.left.len() == 0
        }),
{
    let states = map![p.statesum => p];
    let tips = seq![p.statesum];
    let queue = seq![c];
    let s = applied(p, c)->0;
    assert(s.statesum == c.statesum);
    assert(c.statesum != p.statesum) by {
        if c.statesum == p.statesum {
            assert(s.parents[0] == s.statesum);
            assert(s.parents.contains(s.statesum));
        }
    }
    assert(!states.contains_key(c.statesum));
    assert(states.contains_key(c.parents[0]));
    let states2 = states.insert(s.statesum, s);
    let tips2 = tips_after(tips, s.parents, s.statesum);
    lemma_tips_after(tips, s.parents, s.statesum);
    let pass = replay_pass(states, tips, queue, 0, Seq::empty(), 0);
    assert(pass == replay_pass(
        states2,
        tips2,
        queue,
        1,
        Seq::empty(),
        capped(0, c.changes.len() as usize),
    ));
    assert(pass is Ok && pass->Ok_0.states == states2 && pass->Ok_0.tips == tips2
        && pass->Ok_0.left.len() == 0) by {
        reveal_with_fuel(replay_pass, 3);
    }
    let r = replay_all(states, tips, queue, 0);
    assert(r is Ok && r->Ok_0.states == states2 && r->Ok_0.tips == tips2 && r->Ok_0.left.len()
        == 0) by {
        reveal_with_fuel(replay_all, 3);
        reveal_with_fuel(replay_pass, 3);
        let r2 = replay_all(states2, tips2, Seq::empty(), pass->Ok_0.edits);
    }
}

} // verus!
