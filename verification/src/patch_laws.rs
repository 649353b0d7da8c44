//! The difference between two states, applied to the first, gives the
//! second.

use vstd::prelude::*;
use crate::commit::ChangeView;
use crate::commit::CommitView;
use crate::ids::PartId;
use crate::ids::part_bits;
use crate::idmap::get;
use crate::idmap::holds;
use crate::idmap::increasing;
use crate::idmap::rank;
use crate::idmap::lemma_del;
use crate::idmap::lemma_put;
use crate::idmap::lemma_rank;
use crate::idmap::lemma_rank_is;
use crate::idmap::lemma_same_entries;
use crate::idmap::put;
use crate::patch::applied;
use crate::patch::apply_change;
use crate::patch::apply_from;
use crate::patch::change_of;
use crate::patch::commit_of;
use crate::patch::diff;
use crate::patch::is_diff;
use crate::state::MutView;
use crate::state::StateView;
use crate::state::owned_by;
use crate::state::state_of;

verus! {

/// Whether the elements `cur` are the elements `was` with the first `k`
/// changes of the difference `d` to the elements `now` made.
pub open spec fn partly(
    cur: Seq<(u64, Seq<u8>)>,
    was: Seq<(u64, Seq<u8>)>,
    now: Seq<(u64, Seq<u8>)>,
    d: Seq<(u64, ChangeView)>,
    k: int,
) -> bool {
    forall|id: u64|
        #[trigger] get(cur, id) == if holds(d, id) && rank(d, id) < k {
            get(now, id)
        } else {
            get(was, id)
        }
}

/// The changes of a difference, from the `k`-th on, lead to the second
/// state where the first `k` have been made.
pub proof fn lemma_apply_diff(
    cur: Seq<(u64, Seq<u8>)>,
    was: Seq<(u64, Seq<u8>)>,
    now: Seq<(u64, Seq<u8>)>,
    d: Seq<(u64, ChangeView)>,
    k: int,
    part: PartId,
)
    requires
        increasing(cur),
        increasing(was),
        increasing(now),
        owned_by(now, part),
        is_diff(d, was, now),
        0 <= k <= d.len(),
        partly(cur, was, now, d, k),
    ensures
        apply_from(cur, d, k, part) == Some(now),
    decreases d.len() - k,
{
    if k >= d.len() {
        assert forall|id: u64| get(cur, id) == get(now, id) by {
            lemma_rank(d, id);
            assert(get(d, id) == change_of(was, now, id));
            let g = get(cur, id);
        }
        lemma_same_entries(cur, now);
    } else {
        let id = d[k].0;
        let ch = d[k].1;
        assert forall|i: int| 0 <= i < k implies (#[trigger] d[i]).0 < id by {
            assert(d[i].0 < d[k].0);
        }
        assert forall|i: int| k <= i < d.len() implies (#[trigger] d[i]).0 >= id by {
            if i > k {
                assert(d[k].0 < d[i].0);
            }
        }
        lemma_rank_is(d, id, k);
        assert(get(d, id) == Some(ch));
        assert(get(d, id) == change_of(was, now, id));
        assert(get(cur, id) == get(was, id));
        if get(now, id) is Some {
            lemma_rank(now, id);
            assert(part_bits(now[rank(now, id)].0) == part.id);
        }
        let next = apply_change(cur, id, ch, part);
        assert(next is Some);
        let nx = next->0;
        match ch {
            ChangeView::Deletion => {
                lemma_del(cur, id);
            },
            ChangeView::Insertion(x) => {
                lemma_put(cur, id, x);
            },
            ChangeView::Replacement(x) => {
                lemma_put(cur, id, x);
            },
            _ => {},
        }
        assert(increasing(nx));
        assert(partly(nx, was, now, d, k + 1)) by {
            assert forall|q: u64|
                #[trigger] get(nx, q) == if holds(d, q) && rank(d, q) < k + 1 {
                    get(now, q)
                } else {
                    get(was, q)
                } by {
                lemma_rank(d, q);
                if q != id {
                    assert(get(nx, q) == get(cur, q));
                    if holds(d, q) && rank(d, q) == k {
                        assert(d[rank(d, q)].0 == q);
                    }
                    let g = get(cur, q);
                }
            }
        }
        lemma_apply_diff(nx, was, now, d, k + 1, part);
    }
}

/// The difference between the elements of a state and other elements of
/// its partition, applied to the elements of the state, gives the other
/// elements.
pub proof fn law_diff_applies(
    was: Seq<(u64, Seq<u8>)>,
    now: Seq<(u64, Seq<u8>)>,
    d: Seq<(u64, ChangeView)>,
    part: PartId,
)
    requires
        increasing(was),
        increasing(now),
        owned_by(now, part),
        is_diff(d, was, now),
    ensures
        apply_from(was, d, 0, part) == Some(now),
{
    assert(partly(was, was, now, d, 0)) by {
        assert forall|id: u64|
            #[trigger] get(was, id) == if holds(d, id) && rank(d, id) < 0 {
                get(now, id)
            } else {
                get(was, id)
            } by {
            crate::idmap::lemma_rank_bounds(d, id);
        }
    }
    lemma_apply_diff(was, was, now, d, 0, part);
}

/// A commit that holds the difference between a state and other elements
/// of its partition, and names the sum of the state with these elements,
/// leads from the one to the other: applied to the state, it gives the
/// state with these elements, its own parents and its own metadata. The
/// parents must be distinct and different from the sum that the commit
/// names.
pub proof fn law_commit_of_diff_applies(parent: StateView, now: Seq<(u64, Seq<u8>)>, c: CommitView)
    requires
        parent.wf(),
        increasing(now),
        owned_by(now, parent.part_id),
        is_diff(c.changes, parent.elts, now),
        c.statesum == state_of(parent.part_id, now, c.parents, c.meta).statesum,
        state_of(parent.part_id, now, c.parents, c.meta).acyclic(),
    ensures
        applied(parent, c) == Some(state_of(parent.part_id, now, c.parents, c.meta)),
{
    reveal(StateView::wf);
    law_diff_applies(parent.elts, now, c.changes, parent.part_id);
}

/// The identifier at place `i` of the entries of `was` followed by those of
/// `now`.
pub open spec fn key_at(was: Seq<(u64, Seq<u8>)>, now: Seq<(u64, Seq<u8>)>, i: int) -> u64 {
    if i < was.len() {
        was[i].0
    } else {
        now[i - was.len()].0
    }
}

/// Whether `id` stands before place `k` of the entries of `was` followed by
/// those of `now`.
pub open spec fn seen(
    was: Seq<(u64, Seq<u8>)>,
    now: Seq<(u64, Seq<u8>)>,
    k: int,
    id: u64,
) -> bool {
    exists|i: int| 0 <= i < k && i < was.len() + now.len() && #[trigger] key_at(was, now, i) == id
}

/// The changes `acc` with the change of every identifier from place `k` on
/// of the entries of `was` followed by those of `now`.
pub open spec fn gathered(
    was: Seq<(u64, Seq<u8>)>,
    now: Seq<(u64, Seq<u8>)>,
    acc: Seq<(u64, ChangeView)>,
    k: int,
) -> Seq<(u64, ChangeView)>
    decreases was.len() + now.len() - k,
{
    if k < 0 || k >= was.len() + now.len() {
        acc
    } else {
        let id = key_at(was, now, k);
        match change_of(was, now, id) {
            Some(ch) => gathered(was, now, put(acc, id, ch), k + 1),
            None => gathered(was, now, acc, k + 1),
        }
    }
}

/// An increasing sequence holds an entry for the identifiers that stand in
/// it, and for no other.
pub proof fn lemma_holds_iff<T>(s: Seq<(u64, T)>, id: u64)
    requires
        increasing(s),
    ensures
        holds(s, id) == exists|i: int| 0 <= i < s.len() && (#[trigger] s[i]).0 == id,
{
    crate::idmap::lemma_rank(s, id);
    if holds(s, id) {
        assert(s[rank(s, id)].0 == id);
    }
    if exists|i: int| 0 <= i < s.len() && (#[trigger] s[i]).0 == id {
        let i = choose|i: int| 0 <= i < s.len() && (#[trigger] s[i]).0 == id;
        if i < rank(s, id) {
            assert(s[i].0 < id);
        }
        if i > rank(s, id) {
            assert(s[rank(s, id)].0 < s[i].0);
        }
    }
}

/// Gathering the changes from place `k` on, after those before it, gives
/// the difference.
proof fn lemma_gathered(
    was: Seq<(u64, Seq<u8>)>,
    now: Seq<(u64, Seq<u8>)>,
    acc: Seq<(u64, ChangeView)>,
    k: int,
)
    requires
        increasing(was),
        increasing(now),
        0 <= k <= was.len() + now.len(),
        increasing(acc),
        forall|id: u64|
            #[trigger] get(acc, id) == if seen(was, now, k, id) {
                change_of(was, now, id)
            } else {
                None
            },
    ensures
        is_diff(gathered(was, now, acc, k), was, now),
    decreases was.len() + now.len() - k,
{
    if k >= was.len() + now.len() {
        assert forall|id: u64| get(acc, id) == #[trigger] change_of(was, now, id) by {
            lemma_holds_iff(was, id);
            lemma_holds_iff(now, id);
            assert(get(acc, id) == if seen(was, now, k, id) {
                change_of(was, now, id)
            } else {
                None
            });
            if holds(was, id) {
                let i = choose|i: int| 0 <= i < was.len() && (#[trigger] was[i]).0 == id;
                assert(key_at(was, now, i) == id);
            } else if holds(now, id) {
                let i = choose|i: int| 0 <= i < now.len() && (#[trigger] now[i]).0 == id;
                assert(key_at(was, now, i + was.len()) == id);
            }
        }
    } else {
        let id0 = key_at(was, now, k);
        let next = match change_of(was, now, id0) {
            Some(ch) => put(acc, id0, ch),
            None => acc,
        };
        if let Some(ch) = change_of(was, now, id0) {
            lemma_put(acc, id0, ch);
        }
        assert forall|id: u64|
            #[trigger] get(next, id) == if seen(was, now, k + 1, id) {
                change_of(was, now, id)
            } else {
                None
            } by {
            assert(get(acc, id) == if seen(was, now, k, id) {
                change_of(was, now, id)
            } else {
                None
            });
            if id == id0 {
                assert(key_at(was, now, k) == id);
            } else {
                if seen(was, now, k, id) {
                    let i = choose|i: int|
                        0 <= i < k && i < was.len() + now.len() && #[trigger] key_at(was, now, i)
                            == id;
                    assert(key_at(was, now, i) == id);
                }
                if seen(was, now, k + 1, id) {
                    let i = choose|i: int|
                        0 <= i < k + 1 && i < was.len() + now.len() && #[trigger] key_at(
                            was,
                            now,
                            i,
                        ) == id;
                    assert(i != k);
                    assert(key_at(was, now, i) == id);
                }
            }
        }
        lemma_gathered(was, now, next, k + 1);
    }
}

/// Between any two sets of elements there is a difference.
pub proof fn law_diff_exists(was: Seq<(u64, Seq<u8>)>, now: Seq<(u64, Seq<u8>)>)
    requires
        increasing(was),
        increasing(now),
    ensures
        is_diff(diff(was, now), was, now),
{
    let none = Seq::<(u64, ChangeView)>::empty();
    assert forall|id: u64|
        #[trigger] get(none, id) == if seen(was, now, 0, id) {
            change_of(was, now, id)
        } else {
            None
        } by {}
    lemma_gathered(was, now, none, 0);
}

/// A commit made of a state and of changed elements leads from the one to
/// the other: for a state and a state under construction of the same
/// partition, the commit of the two, applied to the state, gives the state
/// with the new elements, the first state as its only parent and the
/// metadata of the commit; unless the new state would have the sum of its
/// parent.
pub proof fn law_commit_of_applies(
    parent: StateView,
    state: MutView,
    timestamp: i64,
    extra: Option<Seq<char>>,
)
    requires
        parent.wf(),
        state.wf(),
        state.part_id == parent.part_id,
        commit_of(parent, state, timestamp, extra).statesum != parent.statesum,
    ensures
        ({
            let c = commit_of(parent, state, timestamp, extra);
            applied(parent, c) == Some(
                state_of(parent.part_id, state.elts, seq![parent.statesum], c.meta),
            )
        }),
{
    reveal(StateView::wf);
    reveal(MutView::wf);
    let c = commit_of(parent, state, timestamp, extra);
    law_diff_exists(parent.elts, state.elts);
    let s = state_of(parent.part_id, state.elts, c.parents, c.meta);
    assert(s.acyclic()) by {
        assert(c.parents.len() == 1);
        assert(c.parents[0] == parent.statesum);
    }
    law_commit_of_diff_applies(parent, state.elts, c);
}

} // verus!
