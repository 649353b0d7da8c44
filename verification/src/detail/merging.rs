//! Merging the tips of a partition, two at a time.

use vstd::prelude::*;
use crate::commit::Commit;
use crate::commit::CommitView;
use crate::commit::ExtraMeta;
use crate::detail::ancestry::common_ancestor;
use crate::detail::ancestry::is_ancestor;
use crate::detail::graph::closed;
use crate::detail::graph::keyed;
use crate::detail::graph::lemma_tips_after;
use crate::detail::graph::tips_exact;
use crate::detail::graph::without;
use crate::detail::index::index_get;
use crate::detail::index::index_states;
use crate::detail::part::PartIO;
use crate::detail::part::PartView;
use crate::detail::part::Partition;
use crate::detail::part::added;
use crate::detail::part::commit_pushed;
use crate::detail::writing::written;
use crate::error::Error;
use crate::merge::TwoWayMerge;
use crate::merge::TwoWaySolver;
use crate::merge::is_merge;
use crate::merge::merge_commit_of;
use crate::merge::resolved;
use crate::merge::unresolved;
use crate::patch::applied;
use crate::state::MutView;
use crate::state::StateView;
use crate::state::mutable_of;
use crate::sum::Sum;
use vstd::string::StringSliceAdditionalSpecFns;

verus! {

/// Whether the states `now` hold every state of `was`.
pub open spec fn extends(now: Map<Sum, StateView>, was: Map<Sum, StateView>) -> bool {
    forall|k: Sum| #[trigger] was.contains_key(k) ==> now.contains_key(k) && now[k] == was[k]
}

/// Whether `t` is the first of the tips in the order of their bytes.
pub open spec fn is_least(tips: Seq<Sum>, t: Sum) -> bool {
    tips.contains(t) && forall|i: int| 0 <= i < tips.len() ==> tips[i] == t || t.before(tips[i])
}

/// Whether `t2` is the second of the tips in the order of their bytes, and
/// `t1` the first.
pub open spec fn is_second(tips: Seq<Sum>, t1: Sum, t2: Sum) -> bool {
    tips.contains(t2) && t1 != t2 && forall|i: int|
        0 <= i < tips.len() ==> tips[i] == t1 || tips[i] == t2 || t2.before(tips[i])
}

/// The first two of the tips in the order of their bytes.
pub fn two_least(tips: &Vec<Sum>) -> (r: (Sum, Sum))
    requires
        tips@.len() >= 2,
        tips@.no_duplicates(),
    ensures
        is_least(tips@, r.0),
        is_second(tips@, r.0, r.1),
{
    let mut t1 = tips[0];
    let mut t2 = tips[1];
    if t2.is_before(&t1) {
        t1 = tips[1];
        t2 = tips[0];
    }
    let mut i: usize = 2;
    while i < tips.len()
        invariant
            2 <= i <= tips.len(),
            tips@.no_duplicates(),
            t1 != t2,
            exists|a: int| 0 <= a < i && tips@[a] == t1,
            exists|b: int| 0 <= b < i && tips@[b] == t2,
            t1.before(t2),
            forall|k: int| 0 <= k < i ==> tips@[k] == t1 || tips@[k] == t2 || t2.before(tips@[k]),
        decreases tips.len() - i,
    {
        let t = tips[i];
        proof {
            let a = choose|a: int| 0 <= a < i && tips@[a] == t1;
            let b = choose|b: int| 0 <= b < i && tips@[b] == t2;
            assert(tips@[a] != tips@[i as int]);
            assert(tips@[b] != tips@[i as int]);
        }
        if t.is_before(&t1) {
            t2 = t1;
            t1 = t;
        } else if t.is_before(&t2) {
            t2 = t;
        }
        i += 1;
    }
    proof {
        let a = choose|a: int| 0 <= a < tips@.len() && tips@[a] == t1;
        let b = choose|b: int| 0 <= b < tips@.len() && tips@[b] == t2;
        assert(tips@.contains(t1));
        assert(tips@.contains(t2));
    }
    (t1, t2)
}

/// The view of a commit that may be missing.
pub open spec fn made_view(made: Option<Commit>) -> Option<CommitView> {
    match made {
        Some(c) => Some(c@),
        None => None,
    }
}

/// What one merge makes of a partition, where `made` is the commit of the
/// merge, if one was made: the result, and what the partition holds then.
/// Without a commit the merge has failed. The commit is pushed; where that
/// fails, the merge has failed so, and the partition is as it was. Where
/// the partition has no fewer tips then than before, the merge has failed
/// too.
pub open spec fn merge_pushed(v: PartView, made: Option<CommitView>) -> (
    Result<(), Error>,
    PartView,
) {
    match made {
        None => (Err(Error::Other("merge failed")), v),
        Some(c) => match commit_pushed(v, c).0 {
            Err(e) => (Err(Error::Patch(e)), v),
            Ok(_) => (
                if commit_pushed(v, c).1.tips.len() >= v.tips.len() {
                    Err(Error::Other("merge failed"))
                } else {
                    Ok(())
                },
                commit_pushed(v, c).1,
            ),
        },
    }
}

/// Whether each of the commits has two parents that are known states.
pub open spec fn are_merges(merges: Seq<CommitView>, states: Map<Sum, StateView>) -> bool {
    forall|i: int|
        0 <= i < merges.len() ==> (#[trigger] merges[i]).parents.len() == 2
            && states.contains_key(merges[i].parents[0]) && states.contains_key(
            merges[i].parents[1],
        )
}

/// Whether the first two tips of a partition, in the order of their
/// bytes, have no common ancestor.
pub open spec fn no_common(v: PartView) -> bool {
    v.tips.len() >= 2 && forall|t1: Sum, t2: Sum|
        is_least(v.tips, t1) && #[trigger] is_second(v.tips, t1, t2) ==> common_ancestor(
            v.states,
            t1,
            t2,
        ) is None
}

/// What holds after the commit `c` of a merge, with two known parents, was
/// taken in and the partition has changed: the known states are known
/// still, there is a tip, the commit waits behind those that waited, and
/// the commits of merges have known parents.
pub proof fn lemma_merge_taken(v: PartView, c: CommitView, merges: Seq<CommitView>)
    requires
        merge_pushed(v, Some(c)).1 != v,
        c.parents.len() == 2,
        v.states.contains_key(c.parents[0]),
        v.states.contains_key(c.parents[1]),
        are_merges(merges, v.states),
    ensures
        extends(merge_pushed(v, Some(c)).1.states, v.states),
        merge_pushed(v, Some(c)).1.tips.len() >= 1,
        merge_pushed(v, Some(c)).1.unsaved == v.unsaved.push(c),
        are_merges(merges.push(c), merge_pushed(v, Some(c)).1.states),
        merge_pushed(v, Some(c)).1.part_id == v.part_id,
        merge_pushed(v, Some(c)).1.repo_name == v.repo_name,
        merge_pushed(v, Some(c)).1.ss_num == v.ss_num,
{
    let w = merge_pushed(v, Some(c)).1;
    let s = applied(v.states[c.parents[0]], c)->0;
    assert(w == added(v, c, s));
    lemma_tips_after(v.tips, s.parents, s.statesum);
    assert(w.tips.contains(s.statesum));
    let all = merges.push(c);
    assert forall|i: int| 0 <= i < all.len() implies (#[trigger] all[i]).parents.len() == 2
        && w.states.contains_key(all[i].parents[0]) && w.states.contains_key(
        all[i].parents[1],
    ) by {
        if i < merges.len() {
            assert(all[i] == merges[i]);
        }
    }
}

/// What one merge has made: the two tips that were merged, the merged
/// state, whether the merge has failed, and the time of its commit.
pub struct MergeStep {
    pub t1: Sum,
    pub t2: Sum,
    pub merged: MutView,
    pub failed: bool,
    pub timestamp: i64,
}

/// Whether `r` and the partition `w` are what one merge makes of the
/// partition `v`, where `st` is what the merge has made. The first two of
/// the tips, in the order of their bytes, are merged. Without a common
/// ancestor the result is an error, and the partition is as it was. Else
/// the merged state starts from the first tip, holds every element without
/// a conflict as `is_merge` says, and every element with a conflict as the
/// solver may have decided; the merge has failed where the solver may have
/// left an element undecided. The commit that leads from the first tip to
/// the merged state, with both tips as its parents, is taken in as
/// `merge_pushed` says.
#[verifier::opaque]
pub open spec fn one_merge<S: TwoWaySolver>(
    v: PartView,
    solver: &S,
    st: MergeStep,
    r: Result<(), Error>,
    w: PartView,
) -> bool {
    &&& is_least(v.tips, st.t1)
    &&& is_second(v.tips, st.t1, st.t2)
    &&& match common_ancestor(v.states, st.t1, st.t2) {
        None => w == v && r == Err::<(), Error>(
            Error::Other("unable to find a common ancestor"),
        ),
        Some(c) => {
            let a = v.states[st.t1];
            let b = v.states[st.t2];
            let made = if st.failed {
                None
            } else {
                Some(merge_commit_of(a, b, st.merged, st.timestamp, None))
            };
            &&& st.failed ==> unresolved(solver, a.elts, b.elts, v.states[c].elts)
            &&& !st.failed ==> st.merged.part_id == v.part_id && st.merged.parent == st.t1
                && is_merge(st.merged.elts, a.elts, b.elts, v.states[c].elts) && resolved(
                solver,
                st.merged.elts,
                a.elts,
                b.elts,
                v.states[c].elts,
            )
            &&& r == merge_pushed(v, made).0
            &&& w == merge_pushed(v, made).1
        },
    }
}

/// Whether the partition goes through `vs`, merge by merge, as the steps
/// say: every merge but the last goes well, and the last ends as `last`
/// says.
#[verifier::opaque]
pub open spec fn merging<S: TwoWaySolver>(
    vs: Seq<PartView>,
    steps: Seq<MergeStep>,
    solver: &S,
    last: Result<(), Error>,
) -> bool {
    &&& vs.len() == steps.len() + 1
    &&& forall|k: int|
        0 <= k < steps.len() ==> (#[trigger] vs[k]).tips.len() > 1 && one_merge(
            vs[k],
            solver,
            steps[k],
            if k < steps.len() - 1 {
                Ok(())
            } else {
                last
            },
            vs[k + 1],
        )
}

/// Whether `r` is what merging gives, where the partition goes through
/// `vs` as the steps say: tips are merged as long as there is more than one
/// and the merges go well.
pub open spec fn merged_through<S: TwoWaySolver>(
    vs: Seq<PartView>,
    steps: Seq<MergeStep>,
    solver: &S,
    r: Result<(), Error>,
) -> bool {
    &&& merging(vs, steps, solver, r)
    &&& match r {
        Ok(_) => vs.last().tips.len() <= 1,
        Err(_) => steps.len() > 0,
    }
}

/// One more merge after merges that went well.
pub proof fn lemma_merging_more<S: TwoWaySolver>(
    vs: Seq<PartView>,
    steps: Seq<MergeStep>,
    solver: &S,
    st: MergeStep,
    r: Result<(), Error>,
    w: PartView,
)
    requires
        merging(vs, steps, solver, Ok::<(), Error>(())),
        vs.last().tips.len() > 1,
        one_merge(vs.last(), solver, st, r, w),
    ensures
        merging(vs.push(w), steps.push(st), solver, r),
{
    reveal(merging);
    let vs2 = vs.push(w);
    let steps2 = steps.push(st);
    assert forall|k: int| 0 <= k < steps2.len() implies (#[trigger] vs2[k]).tips.len() > 1
        && one_merge(
        vs2[k],
        solver,
        steps2[k],
        if k < steps2.len() - 1 {
            Ok(())
        } else {
            r
        },
        vs2[k + 1],
    ) by {
        if k < steps.len() {
            assert(vs2[k] == vs[k] && vs2[k + 1] == vs[k + 1] && steps2[k] == steps[k]);
            assert(vs[k].tips.len() > 1);
        } else {
            assert(vs2[k] == vs.last());
        }
    }
}

/// Whether the tips of a partition are exact: every state is known under
/// its own sum, every parent of a known state is known, and the tips are
/// the known states that are no parent of a known state.
pub open spec fn exact(v: PartView) -> bool {
    keyed(v.states) && closed(v.states) && tips_exact(v.states, v.tips)
}

impl<IO: PartIO> Partition<IO> {
    /// Prepares the merge of two tips: the first two in the order of their
    /// bytes, with their latest common ancestor. Fails where there are no
    /// two tips, or where the two have no common ancestor.
    pub fn merge_two<'a>(&'a self) -> (r: Result<TwoWayMerge<'a>, Error>)
        requires
            self.wf(),
        ensures
            self@.tips.len() < 2 ==> (r matches Err(e) && e == Error::Other(
                "merge_two() called when no states need merging",
            )),
            match r {
                Ok(m) => m.wf() && !m.failed && m.merged@ == mutable_of(m.a@) && is_least(
                    self@.tips,
                    m.a@.statesum,
                ) && is_second(self@.tips, m.a@.statesum, m.b@.statesum) && m.a@
                    == self@.states[m.a@.statesum] && m.b@ == self@.states[m.b@.statesum] && m.c@
                    == self@.states[m.c@.statesum] && is_ancestor(
                    self@.states,
                    m.c@.statesum,
                    m.a@.statesum,
                ) && is_ancestor(self@.states, m.c@.statesum, m.b@.statesum)
                    && common_ancestor(self@.states, m.a@.statesum, m.b@.statesum) == Some(
                    m.c@.statesum,
                ),
                Err(e) => self@.tips.len() < 2 || (e == Error::Other(
                    "unable to find a common ancestor",
                ) && exists|t1: Sum, t2: Sum|
                    is_least(self@.tips, t1) && is_second(self@.tips, t1, t2) && forall|x: Sum|
                        !(is_ancestor(self@.states, x, t1) && is_ancestor(self@.states, x, t2))),
            },
            r is Err && self@.tips.len() >= 2 ==> exists|t1: Sum, t2: Sum|
                is_least(self@.tips, t1) && #[trigger] is_second(self@.tips, t1, t2)
                    && common_ancestor(self@.states, t1, t2) is None,
    {
        proof {
            reveal(Partition::wf);
        }
        if self.tips.len() < 2 {
            return Err(Error::Other("merge_two() called when no states need merging"));
        }
        let (t1, t2) = two_least(&self.tips);
        let common = match self.latest_common_ancestor(&t1, &t2) {
            Ok(c) => c,
            Err(e) => {
                return Err(e);
            },
        };
        proof {
            let i = choose|i: int| 0 <= i < self.tips@.len() && self.tips@[i] == t1;
            let j = choose|j: int| 0 <= j < self.tips@.len() && self.tips@[j] == t2;
            assert(index_states(self.states).contains_key(self.tips@[i]));
            assert(index_states(self.states).contains_key(self.tips@[j]));
            crate::detail::ancestry::lemma_ancestor_known(self@.states, common, t1);
        }
        match (
            index_get(&self.states, &t1),
            index_get(&self.states, &t2),
            index_get(&self.states, &common),
        ) {
            (Some(a), Some(b), Some(c)) => Ok(TwoWayMerge::new(a, b, c)),
            _ => {
                assert(false);
                Err(Error::Other("unable to find a common ancestor"))
            },
        }
    }

    /// Takes in the commit of one merge, if one was made: see
    /// `merge_pushed`.
    pub fn merge_step(&mut self, made: Option<Commit>) -> (r: Result<(), Error>)
        requires
            old(self).wf(),
            made matches Some(c) ==> c.wf(),
        ensures
            final(self).wf(),
            final(self).io == old(self).io,
            r == merge_pushed(old(self)@, made_view(made)).0,
            final(self)@ == merge_pushed(old(self)@, made_view(made)).1,
    {
        let before = self.tips.len();
        match made {
            None => Err(Error::Other("merge failed")),
            Some(commit) => match self.push_commit(commit) {
                Err(e) => Err(Error::Patch(e)),
                Ok(()) => {
                    if self.tips.len() >= before {
                        Err(Error::Other("merge failed"))
                    } else {
                        Ok(())
                    }
                },
            },
        }
    }

    /// Merges tips, two at a time, until one tip is left: see `merge_two`.
    /// The solver is asked about every element that both tips of a merge
    /// have changed in different ways, and the commit of each merge is
    /// taken in as `merge_step` says. Fails where the two tips of a merge
    /// have no common ancestor, where a merge fails, where the commit of a
    /// merge cannot be pushed (so where the merged state is known already),
    /// or where it does not leave fewer tips. Known states stay known, and
    /// exact tips stay exact. The commits of the merges wait to be written
    /// behind those that waited; each has two parents, which are known. See
    /// `merged_through` for what every merge makes of the partition.
    pub fn merge<S: TwoWaySolver>(&mut self, solver: &S) -> (r: Result<(), Error>)
        requires
            old(self).wf(),
        ensures
            final(self).wf(),
            final(self).io == old(self).io,
            final(self)@.part_id == old(self)@.part_id,
            final(self)@.repo_name == old(self)@.repo_name,
            final(self)@.ss_num == old(self)@.ss_num,
            r is Ok ==> final(self)@.tips.len() <= 1,
            r is Ok && old(self)@.tips.len() >= 1 ==> final(self)@.tips.len() == 1,
            old(self)@.tips.len() <= 1 ==> r is Ok && final(self)@ == old(self)@,
            no_common(old(self)@) ==> r == Err::<(), Error>(
                Error::Other("unable to find a common ancestor"),
            ) && final(self)@ == old(self)@,
            extends(final(self)@.states, old(self)@.states),
            exact(old(self)@) ==> exact(final(self)@),
            exists|merges: Seq<CommitView>| #[trigger]
                are_merges(merges, final(self)@.states)
                    && final(self)@.unsaved == old(self)@.unsaved + merges,
            exists|vs: Seq<PartView>, steps: Seq<MergeStep>| #[trigger]
                merged_through(vs, steps, solver, r) && vs[0] == old(self)@
                    && vs.last() == final(self)@,
    {
        let ghost mut merges: Seq<CommitView> = Seq::empty();
        let ghost mut vs: Seq<PartView> = seq![self@];
        let ghost mut steps: Seq<MergeStep> = Seq::empty();
        proof {
            assert(merging(vs, steps, solver, Ok::<(), Error>(()))) by {
                reveal(merging);
            }
            assert(old(self)@.unsaved + merges =~= old(self)@.unsaved);
            assert(are_merges(merges, self@.states));
        }
        while self.tips.len() > 1
            invariant
                self.wf(),
                self.io == old(self).io,
                self@.part_id == old(self)@.part_id,
                self@.repo_name == old(self)@.repo_name,
                self@.ss_num == old(self)@.ss_num,
                old(self)@.tips.len() <= 1 ==> self@ == old(self)@,
                merges.len() == 0 ==> self@ == old(self)@,
                merges.len() > 0 ==> !no_common(old(self)@),
                old(self)@.tips.len() >= 1 ==> self@.tips.len() >= 1,
                extends(self@.states, old(self)@.states),
                exact(old(self)@) ==> exact(self@),
                are_merges(merges, self@.states),
                self@.unsaved == old(self)@.unsaved + merges,
                merging(vs, steps, solver, Ok::<(), Error>(())),
                vs.len() == steps.len() + 1,
                vs[0] == old(self)@,
                vs.last() == self@,
            decreases self.tips@.len(),
        {
            let ghost held = self@;
            let ghost mut st = MergeStep {
                t1: Sum::zero_sum(),
                t2: Sum::zero_sum(),
                merged: mutable_of(held.states[Sum::zero_sum()]),
                failed: false,
                timestamp: 0,
            };
            let made = match self.merge_two() {
                Err(e) => {
                    proof {
                        let pair = choose|t1: Sum, t2: Sum|
                            is_least(held.tips, t1) && #[trigger] is_second(held.tips, t1, t2)
                                && common_ancestor(held.states, t1, t2) is None;
                        st = MergeStep { t1: pair.0, t2: pair.1, ..st };
                        assert(one_merge(held, solver, st, Err::<(), Error>(e), held)) by {
                            reveal(one_merge);
                        }
                        lemma_merging_more(vs, steps, solver, st, Err::<(), Error>(e), held);
                        vs = vs.push(held);
                        steps = steps.push(st);
                        assert(merged_through(vs, steps, solver, Err::<(), Error>(e)));
                    }
                    return Err(e);
                },
                Ok(m) => {
                    let mut m = m;
                    let ghost (a, b) = (m.a@.statesum, m.b@.statesum);
                    proof {
                        reveal(Partition::wf);
                        assert(self@.tips.contains(a) && self@.tips.contains(b));
                        assert(self@.states.contains_key(a) && self@.states.contains_key(b));
                        assert(is_least(held.tips, a) && is_second(held.tips, a, b));
                        assert(!no_common(held));
                    }
                    m.solve(solver);
                    let ghost merged = m.merged@;
                    let ghost failed = m.failed;
                    let ghost (sa, sb) = (m.a@, m.b@);
                    let made = m.make_commit(ExtraMeta::Empty);
                    proof {
                        let none: Option<Seq<char>> = None;
                        let t = if made is Some {
                            choose|timestamp: i64|
                                made->0@ == #[trigger] merge_commit_of(
                                    sa,
                                    sb,
                                    merged,
                                    timestamp,
                                    none,
                                )
                        } else {
                            0
                        };
                        st = MergeStep { t1: a, t2: b, merged, failed, timestamp: t };
                        if made is Some {
                            let c = made->0@;
                            assert(c == merge_commit_of(sa, sb, merged, t, none));
                            assert(c.parents == seq![a, b]);
                            assert(c.parents.len() == 2);
                            assert(c.parents[0] == a && c.parents[1] == b);
                        }
                    }
                    made
                },
            };
            proof {
                if made is Some && exact(held) {
                    let c = made->0@;
                    assert forall|i: int| 0 <= i < c.parents.len() implies held.states.contains_key(
                        #[trigger] c.parents[i],
                    ) by {}
                    crate::detail::laws::law_exact_after_commit(held, c);
                }
            }
            let ghost pushed = made_view(made);
            let step = self.merge_step(made);
            proof {
                assert(one_merge(held, solver, st, step, self@)) by {
                    reveal(one_merge);
                }
                lemma_merging_more(vs, steps, solver, st, step, self@);
                vs = vs.push(self@);
                steps = steps.push(st);
                if self@ != held {
                    let c = pushed->0;
                    lemma_merge_taken(held, c, merges);
                    merges = merges.push(c);
                    assert(self@.unsaved =~= old(self)@.unsaved + merges);
                    assert forall|k: Sum| #[trigger]
                        old(self)@.states.contains_key(k) implies self@.states.contains_key(k)
                        && self@.states[k] == old(self)@.states[k] by {
                        assert(held.states.contains_key(k));
                    }
                }
            }
            match step {
                Err(e) => {
                    proof {
                        assert(merged_through(vs, steps, solver, Err::<(), Error>(e)));
                    }
                    return Err(e);
                },
                Ok(()) => {},
            }
        }
        proof {
            assert(merged_through(vs, steps, solver, Ok::<(), Error>(())));
        }
        Ok(())
    }
}

} // verus!
