//! Applying commits to states, and making commits of the difference between
//! two states.

use vstd::prelude::*;
use crate::commit::ChangeView;
use crate::commit::Commit;
use crate::commit::CommitMeta;
use crate::commit::CommitView;
use crate::commit::EltChange;
use crate::commit::ExtraMeta;
use crate::commit::MetaView;
use crate::commit::change_views;
use crate::commit::lemma_change_views_increasing;
use crate::elt::Element;
use crate::error::PatchOp;
use crate::ids::EltId;
use crate::ids::PartId;
use crate::ids::part_bits;
use crate::idmap::IdMap;
use crate::idmap::del;
use crate::idmap::get;
use crate::idmap::holds;
use crate::idmap::increasing;
use crate::idmap::put;
use crate::idmap::rank;
use crate::idmap::lemma_put;
use crate::idmap::lemma_rank;
use crate::idmap::lemma_rank_is;
use crate::idmap::lemma_views;
use crate::idmap::lemma_views_rank;
use crate::state::MutPartState;
use crate::state::MutView;
use crate::state::PartState;
use crate::state::StateView;
use crate::state::copy_sums;
use crate::state::distinct;
use crate::state::elt_views;
use crate::state::state_of;
use crate::sum::Sum;

verus! {

/// What a change makes of elements, where it applies: a deletion and a move
/// out take an element away that is there, an insertion brings an element
/// of the partition that is not there, a replacement gives a new payload to
/// an element that is there, and a further move leaves the elements alone.
pub open spec fn apply_change(
    elts: Seq<(u64, Seq<u8>)>,
    id: u64,
    ch: ChangeView,
    part: PartId,
) -> Option<Seq<(u64, Seq<u8>)>> {
    match ch {
        ChangeView::Deletion => if holds(elts, id) {
            Some(del(elts, id))
        } else {
            None
        },
        ChangeView::Insertion(d) => if !holds(elts, id) && part_bits(id) == part.id {
            Some(put(elts, id, d))
        } else {
            None
        },
        ChangeView::Replacement(d) => if holds(elts, id) {
            Some(put(elts, id, d))
        } else {
            None
        },
        ChangeView::MovedOut(_) => if holds(elts, id) {
            Some(del(elts, id))
        } else {
            None
        },
        ChangeView::Moved(_) => Some(elts),
    }
}

/// What the changes from place `k` on make of elements, one after the
/// other; nothing where one of them does not apply.
pub open spec fn apply_from(
    elts: Seq<(u64, Seq<u8>)>,
    changes: Seq<(u64, ChangeView)>,
    k: int,
    part: PartId,
) -> Option<Seq<(u64, Seq<u8>)>>
    decreases changes.len() - k,
{
    if k < 0 || k >= changes.len() {
        Some(elts)
    } else {
        match apply_change(elts, changes[k].0, changes[k].1, part) {
            None => None,
            Some(e) => apply_from(e, changes, k + 1, part),
        }
    }
}

/// The state that a commit makes of its parent: the changes applied to the
/// elements of the parent, with the parents and metadata of the commit.
/// There is none where a change does not apply, where the state would not
/// have the sum that the commit names, or where the parents of the commit
/// are not distinct and different from that sum.
pub open spec fn applied(parent: StateView, c: CommitView) -> Option<StateView> {
    match apply_from(parent.elts, c.changes, 0, parent.part_id) {
        None => None,
        Some(elts) => {
            let s = state_of(parent.part_id, elts, c.parents, c.meta);
            if s.statesum == c.statesum && s.acyclic() {
                Some(s)
            } else {
                None
            }
        },
    }
}

/// The change that leads from the elements `was` to the elements `now` for
/// the element `id`; nothing where the element is the same in both.
pub open spec fn change_of(was: Seq<(u64, Seq<u8>)>, now: Seq<(u64, Seq<u8>)>, id: u64) -> Option<
    ChangeView,
> {
    match (get(was, id), get(now, id)) {
        (Some(a), None) => Some(ChangeView::Deletion),
        (None, Some(b)) => Some(ChangeView::Insertion(b)),
        (Some(a), Some(b)) => if a == b {
            None
        } else {
            Some(ChangeView::Replacement(b))
        },
        (None, None) => None,
    }
}

/// Whether `changes` are the difference between `was` and `now`: in
/// increasing order of identifier, for every element the change that leads
/// from the one to the other.
pub open spec fn is_diff(
    changes: Seq<(u64, ChangeView)>,
    was: Seq<(u64, Seq<u8>)>,
    now: Seq<(u64, Seq<u8>)>,
) -> bool {
    increasing(changes) && forall|id: u64| get(changes, id) == #[trigger] change_of(was, now, id)
}

/// The difference between `was` and `now`.
pub open spec fn diff(was: Seq<(u64, Seq<u8>)>, now: Seq<(u64, Seq<u8>)>) -> Seq<(u64, ChangeView)> {
    choose|c: Seq<(u64, ChangeView)>| is_diff(c, was, now)
}

/// There is one difference between two sets of elements at most.
pub proof fn lemma_diff_unique(
    c: Seq<(u64, ChangeView)>,
    was: Seq<(u64, Seq<u8>)>,
    now: Seq<(u64, Seq<u8>)>,
)
    requires
        is_diff(c, was, now),
    ensures
        c == diff(was, now),
{
    let d = diff(was, now);
    assert(is_diff(d, was, now));
    assert forall|k: u64| get(c, k) == get(d, k) by {
        assert(get(c, k) == change_of(was, now, k));
        assert(get(d, k) == change_of(was, now, k));
    }
    crate::idmap::lemma_same_entries(c, d);
}

/// The commit that leads from the state `parent` to a state with the
/// elements of `state`, made at the time `timestamp` with the extra
/// metadata `extra`.
pub open spec fn commit_of(
    parent: StateView,
    state: MutView,
    timestamp: i64,
    extra: Option<Seq<char>>,
) -> CommitView {
    let meta = MetaView { number: next_number(parent.meta.number), timestamp, extra };
    CommitView {
        statesum: state_of(state.part_id, state.elts, seq![parent.statesum], meta).statesum,
        parents: seq![parent.statesum],
        changes: diff(parent.elts, state.elts),
        meta,
    }
}

/// The number of the commit that follows a commit with number `n`.
pub open spec fn next_number(n: u32) -> u32 {
    if n < u32::MAX {
        (n + 1) as u32
    } else {
        n
    }
}

/// Whether no checksum occurs twice in `v`.
pub fn sums_distinct(v: &Vec<Sum>) -> (r: bool)
    ensures
        r == distinct(v@),
{
    let mut j: usize = 0;
    while j < v.len()
        invariant
            j <= v.len(),
            forall|a: int, b: int| 0 <= a < b < j ==> v@[a] != v@[b],
        decreases v.len() - j,
    {
        let mut i: usize = 0;
        while i < j
            invariant
                i <= j < v.len(),
                forall|a: int| 0 <= a < i ==> v@[a] != v@[j as int],
            decreases j - i,
        {
            if v[i] == v[j] {
                return false;
            }
            i += 1;
        }
        j += 1;
    }
    true
}

/// Whether `s` occurs in `v`.
pub fn sums_contain(v: &Vec<Sum>, s: &Sum) -> (r: bool)
    ensures
        r == v@.contains(*s),
{
    let mut i: usize = 0;
    while i < v.len()
        invariant
            i <= v.len(),
            forall|a: int| 0 <= a < i ==> v@[a] != *s,
        decreases v.len() - i,
    {
        if v[i] == *s {
            return true;
        }
        i += 1;
    }
    false
}

fn apply_one(state: &mut MutPartState, id: u64, change: &EltChange) -> (ok: bool)
    requires
        old(state).wf(),
    ensures
        final(state).wf(),
        final(state)@.part_id == old(state)@.part_id,
        final(state)@.parent == old(state)@.parent,
        match apply_change(old(state)@.elts, id, change@, old(state)@.part_id) {
            Some(e) => ok && final(state)@.elts == e,
            None => !ok,
        },
{
    let eid = EltId { id };
    match change {
        EltChange::Deletion => state.remove(eid).is_ok(),
        EltChange::Insertion(elt) => state.insert_with_id(eid, elt.duplicate()).is_ok(),
        EltChange::Replacement(elt) => state.replace(eid, elt.duplicate()).is_ok(),
        EltChange::MovedOut(_) => state.remove(eid).is_ok(),
        EltChange::Moved(_) => true,
    }
}

impl Commit {
    /// Applies the commit to `parent`: the state that the commit leads to,
    /// or an error where the commit does not lead from `parent` to a state
    /// with its sum.
    pub fn apply(&self, parent: &PartState) -> (r: Result<PartState, PatchOp>)
        requires
            self.wf(),
            parent.wf(),
        ensures
            match applied(parent@, self@) {
                Some(s) => r matches Ok(st) && st@ == s && st.wf() && st@.acyclic(),
                None => r matches Err(e) && e == PatchOp::PatchApply,
            },
    {
        let mut state = parent.clone_mut();
        let mut i: usize = 0;
        let ghost cv = self@.changes;
        proof {
            lemma_views(self.changes.entries());
        }
        while i < self.changes.len()
            invariant
                i <= self.changes.entries().len(),
                cv == change_views(self.changes.entries()),
                cv.len() == self.changes.entries().len(),
                state.wf(),
                state@.part_id == parent@.part_id,
                apply_from(parent@.elts, cv, 0, parent@.part_id) == apply_from(
                    state@.elts,
                    cv,
                    i as int,
                    parent@.part_id,
                ),
            decreases self.changes.entries().len() - i,
        {
            proof {
                lemma_views(self.changes.entries());
            }
            if !apply_one(&mut state, self.changes.id_at(i), self.changes.value_at(i)) {
                return Err(PatchOp::PatchApply);
            }
            i += 1;
        }
        proof {
            reveal(CommitView::wf);
        }
        let s = PartState::from_mut(state, copy_sums(&self.parents), self.meta.duplicate());
        if s.statesum != self.statesum || !sums_distinct(&s.parents) || sums_contain(
            &s.parents,
            &s.statesum,
        ) {
            return Err(PatchOp::PatchApply);
        }
        Ok(s)
    }

    /// The commit that leads from `parent` to `state`, made at the time
    /// `timestamp` with the extra metadata `extra`; nothing where the two
    /// hold the same elements.
    pub fn from_diff(
        parent: &PartState,
        state: &MutPartState,
        timestamp: i64,
        extra: ExtraMeta,
    ) -> (r: Option<Commit>)
        requires
            parent.wf(),
            state.wf(),
            crate::commit::extra_bytes(extra@).len() <= crate::commit::MAX_EXTRA,
        ensures
            r is None <==> forall|id: u64|
                #[trigger] change_of(parent@.elts, state@.elts, id) is None,
            r matches Some(c) ==> c.wf() && is_diff(c@.changes, parent@.elts, state@.elts)
                && c@.changes.len() > 0 && c@ == commit_of(parent@, state@, timestamp, extra@),
    {
        let changes = diff_elts(&parent.elts, &state.elts);
        if changes.len() == 0 {
            proof {
                assert forall|id: u64| #[trigger]
                    change_of(parent@.elts, state@.elts, id) is None by {
                    crate::idmap::lemma_rank_bounds(change_views(changes.entries()), id);
                }
            }
            return None;
        }
        proof {
            let cv = change_views(changes.entries());
            let id = cv[0].0;
            lemma_rank_is(cv, id, 0);
            assert(holds(cv, id));
            assert(change_of(parent@.elts, state@.elts, id) is Some);
        }
        let number = if parent.meta.number < u32::MAX {
            parent.meta.number + 1
        } else {
            parent.meta.number
        };
        let meta = CommitMeta::new_explicit(number, timestamp, extra);
        let mut parents: Vec<Sum> = Vec::new();
        parents.push(parent.statesum);
        assert(parents@ =~= seq![parent@.statesum]);
        let meta_sum = meta.sum();
        proof {
            reveal(MutView::wf);
        }
        let statesum = state.elt_sum.xor(&meta_sum);
        proof {
            lemma_diff_unique(change_views(changes.entries()), parent@.elts, state@.elts);
        }
        Some(Commit::new_explicit(statesum, parents, changes, meta))
    }
}

/// The changes that lead from the elements `was` to the elements `now`.
pub fn diff_elts(was: &IdMap<Element>, now: &IdMap<Element>) -> (changes: IdMap<EltChange>)
    requires
        was.wf(),
        now.wf(),
    ensures
        changes.wf(),
        is_diff(
            change_views(changes.entries()),
            elt_views(was.entries()),
            elt_views(now.entries()),
        ),
{
    let mut changes: IdMap<EltChange> = IdMap::new();
    let ghost a = elt_views(was.entries());
    let ghost b = elt_views(now.entries());
    proof {
        lemma_views(was.entries());
        lemma_views(now.entries());
        assert(change_views(changes.entries()) =~= Seq::empty());
        assert forall|id: u64|
            #[trigger] get(change_views(changes.entries()), id) == if holds(a, id) && rank(a, id)
                < 0 {
                change_of(a, b, id)
            } else {
                None
            } by {
            crate::idmap::lemma_rank_bounds(a, id);
        }
    }
    let mut i: usize = 0;
    while i < was.len()
        invariant
            i <= was.entries().len(),
            was.wf(),
            now.wf(),
            changes.wf(),
            a == elt_views(was.entries()),
            b == elt_views(now.entries()),
            increasing(a),
            a.len() == was.entries().len(),
            forall|id: u64|
                #[trigger] get(change_views(changes.entries()), id) == if holds(a, id) && rank(
                    a,
                    id,
                ) < i {
                    change_of(a, b, id)
                } else {
                    None
                },
        decreases was.entries().len() - i,
    {
        let id = was.id_at(i);
        let e_was = was.value_at(i);
        let ghost before = change_views(changes.entries());
        proof {
            lemma_views(was.entries());
            lemma_views_rank(now.entries(), id);
            assert forall|k: int| 0 <= k < i implies (#[trigger] a[k]).0 < id by {
                assert(a[k].0 < a[i as int].0);
            }
            assert forall|k: int| i <= k < a.len() implies (#[trigger] a[k]).0 >= id by {
                if k > i {
                    assert(a[i as int].0 < a[k].0);
                }
            }
            lemma_rank_is(a, id, i as int);
            lemma_change_views_increasing(changes.entries());
            lemma_put(before, id, ChangeView::Deletion);
        }
        match now.get(id) {
            None => {
                proof {
                    crate::commit::lemma_change_views_put(
                        changes.entries(),
                        id,
                        EltChange::Deletion,
                    );
                }
                changes.insert(id, EltChange::Deletion);
            },
            Some(e_now) => {
                if !e_was.same(e_now) {
                    let c = EltChange::Replacement(e_now.duplicate());
                    proof {
                        crate::commit::lemma_change_views_put(changes.entries(), id, c);
                        lemma_put(before, id, c@);
                    }
                    changes.insert(id, c);
                }
            },
        }
        proof {
            let after = change_views(changes.entries());
            assert forall|k: u64|
                #[trigger] get(after, k) == if holds(a, k) && rank(a, k) < i + 1 {
                    change_of(a, b, k)
                } else {
                    None
                } by {
                lemma_rank(a, k);
                if k != id {
                    assert(get(after, k) == get(before, k));
                    if holds(a, k) && rank(a, k) == i {
                        assert(a[rank(a, k)].0 == k);
                    }
                }
            }
        }
        i += 1;
    }
    proof {
        assert forall|id: u64|
            #[trigger] get(change_views(changes.entries()), id) == if holds(a, id) || (holds(
                b,
                id,
            ) && rank(b, id) < 0) {
                change_of(a, b, id)
            } else {
                None
            } by {
            crate::idmap::lemma_rank_bounds(b, id);
        }
    }
    let mut j: usize = 0;
    while j < now.len()
        invariant
            j <= now.entries().len(),
            was.wf(),
            now.wf(),
            changes.wf(),
            a == elt_views(was.entries()),
            b == elt_views(now.entries()),
            increasing(a),
            increasing(b),
            b.len() == now.entries().len(),
            forall|id: u64|
                #[trigger] get(change_views(changes.entries()), id) == if holds(a, id) || (holds(
                    b,
                    id,
                ) && rank(b, id) < j) {
                    change_of(a, b, id)
                } else {
                    None
                },
        decreases now.entries().len() - j,
    {
        let id = now.id_at(j);
        let ghost before = change_views(changes.entries());
        proof {
            lemma_views(now.entries());
            lemma_views_rank(was.entries(), id);
            assert forall|k: int| 0 <= k < j implies (#[trigger] b[k]).0 < id by {
                assert(b[k].0 < b[j as int].0);
            }
            assert forall|k: int| j <= k < b.len() implies (#[trigger] b[k]).0 >= id by {
                if k > j {
                    assert(b[j as int].0 < b[k].0);
                }
            }
            lemma_rank_is(b, id, j as int);
            lemma_change_views_increasing(changes.entries());
        }
        if !was.contains(id) {
            let c = EltChange::Insertion(now.value_at(j).duplicate());
            proof {
                crate::commit::lemma_change_views_put(changes.entries(), id, c);
                lemma_put(before, id, c@);
            }
            changes.insert(id, c);
        }
        proof {
            let after = change_views(changes.entries());
            assert forall|k: u64|
                #[trigger] get(after, k) == if holds(a, k) || (holds(b, k) && rank(b, k) < j
                    + 1) {
                    change_of(a, b, k)
                } else {
                    None
                } by {
                lemma_rank(b, k);
                if k != id {
                    assert(get(after, k) == get(before, k));
                    if holds(b, k) && rank(b, k) == j {
                        assert(b[rank(b, k)].0 == k);
                    }
                }
            }
        }
        j += 1;
    }
    proof {
        lemma_change_views_increasing(changes.entries());
        let cv = change_views(changes.entries());
        assert forall|id: u64| get(cv, id) == #[trigger] change_of(a, b, id) by {
            lemma_rank(b, id);
        }
    }
    changes
}

} // verus!
