//! Merging two tips of a partition into one state.
//!
//! The merge starts from the first tip. For every element it looks at the
//! two tips and at their common ancestor. Where only one tip has changed
//! the element, that change is taken. Where both have changed it in
//! different ways, a solver decides.

use vstd::prelude::*;
use crate::commit::Commit;
use crate::commit::CommitMeta;
use crate::commit::CommitView;
use crate::commit::ExtraMeta;
use crate::commit::MetaView;
use crate::commit::change_views;
use crate::commit::extra_bytes;
use crate::commit::MAX_EXTRA;
use crate::elt::Element;
use crate::ids::EltId;
use crate::ids::part_bits;
use crate::idmap::del;
use crate::idmap::get;
use crate::idmap::holds;
use crate::idmap::increasing;
use crate::idmap::put;
use crate::idmap::rank;
use crate::idmap::lemma_del;
use crate::idmap::lemma_put;
use crate::idmap::lemma_rank;
use crate::idmap::lemma_rank_bounds;
use crate::idmap::lemma_rank_is;
use crate::idmap::lemma_views;
use crate::idmap::lemma_views_rank;
use crate::patch::diff;
use crate::patch::diff_elts;
use crate::patch::lemma_diff_unique;
use crate::state::MutPartState;
use crate::state::MutView;
use crate::state::PartState;
use crate::state::StateView;
use crate::state::mutable_of;
use crate::state::owned_by;
use crate::state::state_of;
use crate::sum::Sum;

verus! {

/// What a solver decides for an element that both tips have changed.
#[derive(Clone, Debug, PartialEq, Eq)]
pub enum EltMerge {
    /// The element of the first tip.
    A,
    /// The element of the second tip.
    B,
    /// Another element.
    Elt(Element),
    /// No element.
    NoElt,
    /// No decision: the merge fails.
    Fail,
}

/// What a decision holds.
pub enum MergeView {
    A,
    B,
    Elt(Seq<u8>),
    NoElt,
    Fail,
}

impl View for EltMerge {
    type V = MergeView;

    open spec fn view(&self) -> MergeView {
        match self {
            EltMerge::A => MergeView::A,
            EltMerge::B => MergeView::B,
            EltMerge::Elt(e) => MergeView::Elt(e@),
            EltMerge::NoElt => MergeView::NoElt,
            EltMerge::Fail => MergeView::Fail,
        }
    }
}

/// Decides what becomes of an element that both tips have changed, in
/// different ways.
pub trait TwoWaySolver {
    /// The decision for an element, given the element in the first tip, in
    /// the second tip and in their common ancestor; each may be missing.
    fn solve(
        &self,
        elt1: Option<&Element>,
        elt2: Option<&Element>,
        common: Option<&Element>,
    ) -> EltMerge;
}

/// The solver that takes the element of the first tip.
pub struct TakeFirst;

/// The solver that takes the element of the second tip.
pub struct TakeSecond;

/// The solver that decides nothing.
pub struct NoSolver;

impl TwoWaySolver for TakeFirst {
    fn solve(
        &self,
        _elt1: Option<&Element>,
        _elt2: Option<&Element>,
        _common: Option<&Element>,
    ) -> (d: EltMerge)
        ensures
            d@ == MergeView::A,
    {
        EltMerge::A
    }
}

impl TwoWaySolver for TakeSecond {
    fn solve(
        &self,
        _elt1: Option<&Element>,
        _elt2: Option<&Element>,
        _common: Option<&Element>,
    ) -> (d: EltMerge)
        ensures
            d@ == MergeView::B,
    {
        EltMerge::B
    }
}

impl TwoWaySolver for NoSolver {
    fn solve(
        &self,
        _elt1: Option<&Element>,
        _elt2: Option<&Element>,
        _common: Option<&Element>,
    ) -> (d: EltMerge)
        ensures
            d@ == MergeView::Fail,
    {
        EltMerge::Fail
    }
}

/// The payload of an element that may be missing.
pub open spec fn payload_of(e: Option<&Element>) -> Option<Seq<u8>> {
    match e {
        Some(x) => Some(x@),
        None => None,
    }
}

/// What becomes of an element without a solver: the element of the first
/// tip where both tips agree or only the first has changed it, the element
/// of the second tip where only the second has changed it. Where both have
/// changed it in different ways there is a conflict, and nothing is said.
pub open spec fn settled(
    a: Option<Seq<u8>>,
    b: Option<Seq<u8>>,
    c: Option<Seq<u8>>,
) -> Option<Option<Seq<u8>>> {
    if a == b {
        Some(a)
    } else if b == c {
        Some(a)
    } else if a == c {
        Some(b)
    } else {
        None
    }
}

/// Whether the solver may decide `d` for an element that is `a` in the
/// first tip, `b` in the second and `c` in their common ancestor: whether
/// its `solve` may return a decision with this view.
pub open spec fn may_decide<S: TwoWaySolver>(
    solver: &S,
    a: Option<Seq<u8>>,
    b: Option<Seq<u8>>,
    c: Option<Seq<u8>>,
    d: MergeView,
) -> bool {
    exists|ea: Option<&Element>, eb: Option<&Element>, ec: Option<&Element>, m: EltMerge| #[trigger]
        call_ensures(S::solve, (solver, ea, eb, ec), m) && payload_of(ea) == a && payload_of(eb)
            == b && payload_of(ec) == c && m@ == d
}

/// Whether an element with a conflict is after the merge what the solver
/// may have decided: `g` is the element after the merge.
pub open spec fn answered<S: TwoWaySolver>(
    solver: &S,
    a: Option<Seq<u8>>,
    b: Option<Seq<u8>>,
    c: Option<Seq<u8>>,
    g: Option<Seq<u8>>,
) -> bool {
    settled(a, b, c) is None ==> exists|d: MergeView| #[trigger]
        may_decide(solver, a, b, c, d) && decided(a, b, d) == Some(g)
}

/// Whether the solver may leave an element with a conflict undecided.
pub open spec fn unresolved<S: TwoWaySolver>(
    solver: &S,
    a: Seq<(u64, Seq<u8>)>,
    b: Seq<(u64, Seq<u8>)>,
    c: Seq<(u64, Seq<u8>)>,
) -> bool {
    exists|id: u64|
        settled(get(a, id), get(b, id), get(c, id)) is None && #[trigger] may_decide(
            solver,
            get(a, id),
            get(b, id),
            get(c, id),
            MergeView::Fail,
        )
}

/// Whether the elements `r` are what the solver may have made of every
/// conflict between the elements `a` and `b` with the ancestor `c`.
pub open spec fn resolved<S: TwoWaySolver>(
    solver: &S,
    r: Seq<(u64, Seq<u8>)>,
    a: Seq<(u64, Seq<u8>)>,
    b: Seq<(u64, Seq<u8>)>,
    c: Seq<(u64, Seq<u8>)>,
) -> bool {
    forall|id: u64| #[trigger] answered(solver, get(a, id), get(b, id), get(c, id), get(r, id))
}

/// What a decision makes of an element: the element after the merge, or
/// nothing where the merge fails.
pub open spec fn decided(a: Option<Seq<u8>>, b: Option<Seq<u8>>, d: MergeView) -> Option<
    Option<Seq<u8>>,
> {
    match d {
        MergeView::A => Some(a),
        MergeView::B => Some(b),
        MergeView::Elt(e) => Some(Some(e)),
        MergeView::NoElt => Some(None),
        MergeView::Fail => None,
    }
}

/// The elements with `id` set to `e`, or without `id` where `e` is missing.
pub open spec fn set_to(elts: Seq<(u64, Seq<u8>)>, id: u64, e: Option<Seq<u8>>) -> Seq<
    (u64, Seq<u8>),
> {
    match e {
        Some(d) => put(elts, id, d),
        None => del(elts, id),
    }
}

/// Whether two elements that may be missing hold the same.
pub fn same_opt(x: Option<&Element>, y: Option<&Element>) -> (r: bool)
    ensures
        r == (payload_of(x) == payload_of(y)),
{
    match (x, y) {
        (Some(a), Some(b)) => a.same(b),
        (None, None) => true,
        _ => false,
    }
}

/// Sets the element `id` of `state` to `e`, or removes it where `e` is
/// missing.
pub fn set_elt(state: &mut MutPartState, id: u64, e: Option<&Element>)
    requires
        old(state).wf(),
        part_bits(id) == old(state)@.part_id.id,
    ensures
        final(state).wf(),
        final(state)@.part_id == old(state)@.part_id,
        final(state)@.parent == old(state)@.parent,
        final(state)@.elts == set_to(old(state)@.elts, id, payload_of(e)),
{
    let eid = EltId { id };
    match e {
        Some(x) => {
            if state.is_avail(eid) {
                let _ = state.replace(eid, x.duplicate());
            } else {
                let _ = state.insert_with_id(eid, x.duplicate());
            }
        },
        None => {
            let _ = state.remove(eid);
            proof {
                if !holds(old(state)@.elts, id) {
                    assert(del(old(state)@.elts, id) == old(state)@.elts);
                }
            }
        },
    }
}

/// Carries out a decision for the element `id`, of which `state` holds what
/// the first tip holds, and `b` is what the second tip holds. Tells whether
/// the merge can go on.
pub fn carry_out(state: &mut MutPartState, id: u64, b: Option<&Element>, decision: EltMerge) -> (ok:
    bool)
    requires
        old(state).wf(),
        part_bits(id) == old(state)@.part_id.id,
    ensures
        final(state).wf(),
        final(state)@.part_id == old(state)@.part_id,
        final(state)@.parent == old(state)@.parent,
        match decided(get(old(state)@.elts, id), payload_of(b), decision@) {
            Some(e) => ok && final(state)@.elts == set_to(old(state)@.elts, id, e),
            None => !ok && final(state)@ == old(state)@,
        },
{
    proof {
        reveal(MutView::wf);
        lemma_put_same(state@.elts, id);
    }
    match decision {
        EltMerge::A => true,
        EltMerge::B => {
            set_elt(state, id, b);
            true
        },
        EltMerge::Elt(e) => {
            set_elt(state, id, Some(&e));
            true
        },
        EltMerge::NoElt => {
            set_elt(state, id, None);
            true
        },
        EltMerge::Fail => false,
    }
}

/// Setting an element to what it is changes nothing.
pub proof fn lemma_put_same(s: Seq<(u64, Seq<u8>)>, id: u64)
    requires
        increasing(s),
    ensures
        set_to(s, id, get(s, id)) == s,
{
    lemma_rank(s, id);
    if holds(s, id) {
        assert(s.update(rank(s, id), (id, s[rank(s, id)].1)) =~= s);
    }
}

/// What setting an element does to the elements: that element is what it
/// was set to, and every other is what it was.
pub proof fn lemma_set_to(s: Seq<(u64, Seq<u8>)>, id: u64, e: Option<Seq<u8>>)
    requires
        increasing(s),
    ensures
        increasing(set_to(s, id, e)),
        get(set_to(s, id, e), id) == e,
        forall|k: u64| k != id ==> get(set_to(s, id, e), k) == #[trigger] get(s, k),
{
    match e {
        Some(d) => {
            lemma_put(s, id, d);
        },
        None => {
            lemma_del(s, id);
        },
    }
}

/// A merge of two tips, with their common ancestor.
pub struct TwoWayMerge<'a> {
    /// The first tip.
    pub a: &'a PartState,
    /// The second tip.
    pub b: &'a PartState,
    /// The common ancestor.
    pub c: &'a PartState,
    /// The merged state, as far as it is made.
    pub merged: MutPartState,
    /// Whether a solver has left an element undecided.
    pub failed: bool,
}

/// Whether the elements `r` are a merge of the elements `a` and `b` with
/// the ancestor `c`: every element without a conflict is as `settled` says.
pub open spec fn is_merge(
    r: Seq<(u64, Seq<u8>)>,
    a: Seq<(u64, Seq<u8>)>,
    b: Seq<(u64, Seq<u8>)>,
    c: Seq<(u64, Seq<u8>)>,
) -> bool {
    forall|id: u64| #[trigger] merged_at(r, a, b, c, id)
}

/// Whether the element `id` of `r` is as `settled` says, or has a conflict.
pub open spec fn merged_at(
    r: Seq<(u64, Seq<u8>)>,
    a: Seq<(u64, Seq<u8>)>,
    b: Seq<(u64, Seq<u8>)>,
    c: Seq<(u64, Seq<u8>)>,
    id: u64,
) -> bool {
    match settled(get(a, id), get(b, id), get(c, id)) {
        Some(e) => get(r, id) == e,
        None => true,
    }
}

/// The commit that merges the tip `b` into the tip `a`, with `merged` as
/// the state that it leads to.
pub open spec fn merge_commit_of(
    a: StateView,
    b: StateView,
    merged: MutView,
    timestamp: i64,
    extra: Option<Seq<char>>,
) -> CommitView {
    let meta = MetaView {
        number: crate::patch::next_number(
            if a.meta.number >= b.meta.number {
                a.meta.number
            } else {
                b.meta.number
            },
        ),
        timestamp,
        extra,
    };
    CommitView {
        statesum: state_of(merged.part_id, merged.elts, seq![a.statesum, b.statesum], meta).statesum,
        parents: seq![a.statesum, b.statesum],
        changes: diff(a.elts, merged.elts),
        meta,
    }
}

impl<'a> TwoWayMerge<'a> {
    /// The invariant: the three states meet theirs and belong to one
    /// partition, and the merged state starts from the first tip.
    pub open spec fn wf(&self) -> bool {
        &&& self.a.wf()
        &&& self.b.wf()
        &&& self.c.wf()
        &&& self.merged.wf()
        &&& self.a@.part_id == self.b@.part_id
        &&& self.merged@.part_id == self.a@.part_id
        &&& self.merged@.parent == self.a@.statesum
    }

    /// A merge of the tips `a` and `b` with the common ancestor `c`. Nothing
    /// is merged yet: the merged state holds what `a` holds.
    pub fn new(a: &'a PartState, b: &'a PartState, c: &'a PartState) -> (m: TwoWayMerge<'a>)
        requires
            a.wf(),
            b.wf(),
            c.wf(),
            a@.part_id == b@.part_id,
        ensures
            m.wf(),
            m.a == a,
            m.b == b,
            m.c == c,
            !m.failed,
            m.merged@ == mutable_of(a@),
    {
        TwoWayMerge { a: a, b: b, c: c, merged: a.clone_mut(), failed: false }
    }

    fn settle_one<S: TwoWaySolver>(&mut self, id: u64, solver: &S) -> (ok: bool)
        requires
            old(self).wf(),
            part_bits(id) == old(self).a@.part_id.id,
            get(old(self).merged@.elts, id) == get(old(self).a@.elts, id),
        ensures
            final(self).wf(),
            final(self).a == old(self).a,
            final(self).b == old(self).b,
            final(self).c == old(self).c,
            final(self).failed == old(self).failed,
            forall|k: u64|
                k != id ==> get(final(self).merged@.elts, k) == #[trigger] get(
                    old(self).merged@.elts,
                    k,
                ),
            settled(
                get(old(self).a@.elts, id),
                get(old(self).b@.elts, id),
                get(old(self).c@.elts, id),
            ) matches Some(e) ==> ok && get(final(self).merged@.elts, id) == e,
            ok ==> answered(
                solver,
                get(old(self).a@.elts, id),
                get(old(self).b@.elts, id),
                get(old(self).c@.elts, id),
                get(final(self).merged@.elts, id),
            ),
            !ok ==> may_decide(
                solver,
                get(old(self).a@.elts, id),
                get(old(self).b@.elts, id),
                get(old(self).c@.elts, id),
                MergeView::Fail,
            ) && settled(
                get(old(self).a@.elts, id),
                get(old(self).b@.elts, id),
                get(old(self).c@.elts, id),
            ) is None,
    {
        let eid = EltId { id };
        let (ea, eb, ec) = (self.a.get(eid).ok(), self.b.get(eid).ok(), self.c.get(eid).ok());
        proof {
            reveal(MutView::wf);
            lemma_put_same(self.merged@.elts, id);
            lemma_set_to(self.merged@.elts, id, payload_of(eb));
        }
        if same_opt(ea, eb) || same_opt(eb, ec) {
            true
        } else if same_opt(ea, ec) {
            set_elt(&mut self.merged, id, eb);
            true
        } else {
            let decision = solver.solve(ea, eb, ec);
            proof {
                match decided(get(self.merged@.elts, id), payload_of(eb), decision@) {
                    Some(e) => {
                        lemma_set_to(self.merged@.elts, id, e);
                    },
                    None => {},
                }
                assert(may_decide(
                    solver,
                    payload_of(ea),
                    payload_of(eb),
                    payload_of(ec),
                    decision@,
                ));
            }
            carry_out(&mut self.merged, id, eb, decision)
        }
    }

    /// Merges the two tips: every element that only one tip has changed is
    /// taken from that tip, and `solver` is asked about every element that
    /// both have changed in different ways; such an element becomes what the
    /// solver decides. The merge fails where the solver leaves an element
    /// undecided.
    pub fn solve<S: TwoWaySolver>(&mut self, solver: &S)
        requires
            old(self).wf(),
            old(self).merged@ == mutable_of(old(self).a@),
        ensures
            final(self).wf(),
            final(self).a == old(self).a,
            final(self).b == old(self).b,
            final(self).c == old(self).c,
            !final(self).failed ==> is_merge(
                final(self).merged@.elts,
                final(self).a@.elts,
                final(self).b@.elts,
                final(self).c@.elts,
            ),
            !final(self).failed ==> resolved(
                solver,
                final(self).merged@.elts,
                final(self).a@.elts,
                final(self).b@.elts,
                final(self).c@.elts,
            ),
            final(self).failed ==> old(self).failed || unresolved(
                solver,
                final(self).a@.elts,
                final(self).b@.elts,
                final(self).c@.elts,
            ),
            old(self).failed ==> final(self).failed,
    {
        let ghost a = self.a@.elts;
        let ghost b = self.b@.elts;
        let ghost c = self.c@.elts;
        proof {
            reveal(crate::state::StateView::wf);
            lemma_views(self.a.elts.entries());
            lemma_views(self.b.elts.entries());
            assert forall|id: u64|
                #![trigger get(self.merged@.elts, id)]
                if holds(a, id) && rank(a, id) < 0 {
                    self.failed || merged_at(self.merged@.elts, a, b, c, id)
                } else {
                    get(self.merged@.elts, id) == get(a, id)
                } by {
                lemma_rank_bounds(a, id);
            }
        }
        proof {
            assert forall|id: u64| holds(a, id) && rank(a, id) < 0 implies #[trigger] answered(
                solver,
                get(a, id),
                get(b, id),
                get(c, id),
                get(self.merged@.elts, id),
            ) by {
                lemma_rank_bounds(a, id);
            }
        }
        let mut i: usize = 0;
        while i < self.a.elts.len()
            invariant
                i <= self.a.elts.entries().len(),
                self.wf(),
                self.a == old(self).a,
                self.b == old(self).b,
                self.c == old(self).c,
                a == self.a@.elts,
                b == self.b@.elts,
                c == self.c@.elts,
                increasing(a),
                owned_by(a, self.a@.part_id),
                a.len() == self.a.elts.entries().len(),
                forall|k: int| 0 <= k < a.len() ==> (#[trigger] a[k]).0 == self.a.elts.entries()[k].0,
                forall|id: u64|
                    #![trigger get(self.merged@.elts, id)]
                    if holds(a, id) && rank(a, id) < i {
                        self.failed || merged_at(self.merged@.elts, a, b, c, id)
                    } else {
                        get(self.merged@.elts, id) == get(a, id)
                    },
                old(self).failed ==> self.failed,
                self.failed ==> old(self).failed || unresolved(solver, a, b, c),
                self.failed || forall|id: u64|
                    holds(a, id) && rank(a, id) < i ==> #[trigger] answered(
                        solver,
                        get(a, id),
                        get(b, id),
                        get(c, id),
                        get(self.merged@.elts, id),
                    ),
            decreases self.a.elts.entries().len() - i,
        {
            let id = self.a.elts.id_at(i);
            let ghost before = self.merged@.elts;
            let ghost failing = self.failed;
            proof {
                assert(a[i as int].0 == id);
                assert forall|k: int| 0 <= k < i implies (#[trigger] a[k]).0 < id by {
                    assert(a[k].0 < a[i as int].0);
                }
                assert forall|k: int| i <= k < a.len() implies (#[trigger] a[k]).0 >= id by {
                    if k > i {
                        assert(a[i as int].0 < a[k].0);
                    }
                }
                lemma_rank_is(a, id, i as int);
                assert(get(before, id) == get(a, id));
            }
            if !self.settle_one(id, solver) {
                self.failed = true;
                proof {
                    assert(may_decide(solver, get(a, id), get(b, id), get(c, id), MergeView::Fail));
                    assert(unresolved(solver, a, b, c));
                }
            }
            proof {
                if !self.failed {
                    assert forall|k: u64| holds(a, k) && rank(a, k) < i + 1 implies #[trigger] answered(
                        solver,
                        get(a, k),
                        get(b, k),
                        get(c, k),
                        get(self.merged@.elts, k),
                    ) by {
                        lemma_rank(a, k);
                        if k != id {
                            assert(get(self.merged@.elts, k) == get(before, k));
                            if rank(a, k) == i {
                                assert(a[rank(a, k)].0 == k);
                            }
                        }
                    }
                }
                assert forall|k: u64|
                    #![trigger get(self.merged@.elts, k)]
                    if holds(a, k) && rank(a, k) < i + 1 {
                        self.failed || merged_at(self.merged@.elts, a, b, c, k)
                    } else {
                        get(self.merged@.elts, k) == get(a, k)
                    } by {
                    lemma_rank(a, k);
                    if k != id {
                        assert(get(self.merged@.elts, k) == get(before, k));
                        if holds(a, k) && rank(a, k) == i {
                            assert(a[rank(a, k)].0 == k);
                        }
                    }
                }
            }
            i += 1;
        }
        let mut j: usize = 0;
        proof {
            if !self.failed {
                assert forall|id: u64|
                    holds(a, id) || (holds(b, id) && rank(b, id) < 0) implies #[trigger] answered(
                    solver,
                    get(a, id),
                    get(b, id),
                    get(c, id),
                    get(self.merged@.elts, id),
                ) by {
                    lemma_rank_bounds(b, id);
                    lemma_rank(a, id);
                }
            }
            assert forall|id: u64|
                #![trigger get(self.merged@.elts, id)]
                if holds(a, id) || (holds(b, id) && rank(b, id) < 0) {
                    self.failed || merged_at(self.merged@.elts, a, b, c, id)
                } else {
                    get(self.merged@.elts, id) == get(a, id)
                } by {
                lemma_rank_bounds(b, id);
                lemma_rank(a, id);
            }
        }
        while j < self.b.elts.len()
            invariant
                j <= self.b.elts.entries().len(),
                self.wf(),
                self.a == old(self).a,
                self.b == old(self).b,
                self.c == old(self).c,
                a == self.a@.elts,
                b == self.b@.elts,
                c == self.c@.elts,
                increasing(a),
                increasing(b),
                owned_by(b, self.b@.part_id),
                b.len() == self.b.elts.entries().len(),
                forall|k: int| 0 <= k < b.len() ==> (#[trigger] b[k]).0 == self.b.elts.entries()[k].0,
                forall|id: u64|
                    #![trigger get(self.merged@.elts, id)]
                    if holds(a, id) || (holds(b, id) && rank(b, id) < j) {
                        self.failed || merged_at(self.merged@.elts, a, b, c, id)
                    } else {
                        get(self.merged@.elts, id) == get(a, id)
                    },
                old(self).failed ==> self.failed,
                self.failed ==> old(self).failed || unresolved(solver, a, b, c),
                self.failed || forall|id: u64|
                    holds(a, id) || (holds(b, id) && rank(b, id) < j) ==> #[trigger] answered(
                        solver,
                        get(a, id),
                        get(b, id),
                        get(c, id),
                        get(self.merged@.elts, id),
                    ),
            decreases self.b.elts.entries().len() - j,
        {
            let id = self.b.elts.id_at(j);
            let ghost before = self.merged@.elts;
            proof {
                assert(b[j as int].0 == id);
                assert forall|k: int| 0 <= k < j implies (#[trigger] b[k]).0 < id by {
                    assert(b[k].0 < b[j as int].0);
                }
                assert forall|k: int| j <= k < b.len() implies (#[trigger] b[k]).0 >= id by {
                    if k > j {
                        assert(b[j as int].0 < b[k].0);
                    }
                }
                lemma_rank_is(b, id, j as int);
                lemma_views_rank(self.a.elts.entries(), id);
            }
            if !self.a.elts.contains(id) {
                proof {
                    assert(get(before, id) == get(a, id));
                }
                if !self.settle_one(id, solver) {
                    self.failed = true;
                    proof {
                        assert(may_decide(
                            solver,
                            get(a, id),
                            get(b, id),
                            get(c, id),
                            MergeView::Fail,
                        ));
                        assert(unresolved(solver, a, b, c));
                    }
                }
            }
            proof {
                if !self.failed {
                    assert forall|k: u64|
                        holds(a, k) || (holds(b, k) && rank(b, k) < j + 1) implies #[trigger] answered(
                        solver,
                        get(a, k),
                        get(b, k),
                        get(c, k),
                        get(self.merged@.elts, k),
                    ) by {
                        lemma_rank(b, k);
                        if k != id {
                            assert(get(self.merged@.elts, k) == get(before, k));
                            if holds(b, k) && rank(b, k) == j {
                                assert(b[rank(b, k)].0 == k);
                            }
                        }
                    }
                }
                assert forall|k: u64|
                    #![trigger get(self.merged@.elts, k)]
                    if holds(a, k) || (holds(b, k) && rank(b, k) < j + 1) {
                        self.failed || merged_at(self.merged@.elts, a, b, c, k)
                    } else {
                        get(self.merged@.elts, k) == get(a, k)
                    } by {
                    lemma_rank(b, k);
                    if k != id {
                        assert(get(self.merged@.elts, k) == get(before, k));
                        if holds(b, k) && rank(b, k) == j {
                            assert(b[rank(b, k)].0 == k);
                        }
                    }
                }
            }
            j += 1;
        }
        proof {
            if !self.failed {
                assert forall|id: u64| #[trigger]
                    merged_at(self.merged@.elts, a, b, c, id) by {
                    lemma_rank(b, id);
                    let g = get(self.merged@.elts, id);
                }
                assert forall|id: u64| #[trigger]
                    answered(
                        solver,
                        get(a, id),
                        get(b, id),
                        get(c, id),
                        get(self.merged@.elts, id),
                    ) by {
                    lemma_rank(b, id);
                }
            }
        }
    }

    /// The commit that leads from the first tip to the merged state, with
    /// both tips as its parents, made at the time `timestamp`; nothing
    /// where the merge has failed.
    pub fn make_commit_at(self, extra: ExtraMeta, timestamp: i64) -> (r: Option<Commit>)
        requires
            self.wf(),
            extra_bytes(extra@).len() <= MAX_EXTRA,
        ensures
            r is None <==> self.failed,
            r matches Some(c) ==> c.wf() && c@ == merge_commit_of(
                self.a@,
                self.b@,
                self.merged@,
                timestamp,
                extra@,
            ),
    {
        if self.failed {
            return None;
        }
        let changes = diff_elts(&self.a.elts, &self.merged.elts);
        let top = if self.a.meta.number >= self.b.meta.number {
            self.a.meta.number
        } else {
            self.b.meta.number
        };
        let number = if top < u32::MAX {
            top + 1
        } else {
            top
        };
        let meta = CommitMeta::new_explicit(number, timestamp, extra);
        let mut parents: Vec<Sum> = Vec::new();
        parents.push(self.a.statesum);
        parents.push(self.b.statesum);
        assert(parents@ =~= seq![self.a@.statesum, self.b@.statesum]);
        let meta_sum = meta.sum();
        proof {
            reveal(MutView::wf);
            lemma_diff_unique(
                change_views(changes.entries()),
                self.a@.elts,
                self.merged@.elts,
            );
        }
        let statesum = self.merged.elt_sum.xor(&meta_sum);
        Some(Commit::new_explicit(statesum, parents, changes, meta))
    }

    /// The commit that leads from the first tip to the merged state, with
    /// both tips as its parents, made now; nothing where the merge has
    /// failed.
    pub fn make_commit(self, extra: ExtraMeta) -> (r: Option<Commit>)
        requires
            self.wf(),
            extra_bytes(extra@).len() <= MAX_EXTRA,
        ensures
            r is None <==> self.failed,
            r matches Some(c) ==> c.wf() && exists|timestamp: i64|
                c@ == #[trigger] merge_commit_of(
                    self.a@,
                    self.b@,
                    self.merged@,
                    timestamp,
                    extra@,
                ),
    {
        let timestamp = crate::detail::part::now_seconds();
        let ghost (a, b, m, x) = (self.a@, self.b@, self.merged@, extra@);
        let r = self.make_commit_at(extra, timestamp);
        assert(r matches Some(c) ==> c@ == merge_commit_of(a, b, m, timestamp, x));
        r
    }
}

} // verus!
