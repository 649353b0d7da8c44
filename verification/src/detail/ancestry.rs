//! Ancestors of states, and the search for a common one.

use vstd::prelude::*;
use hashindexed::HashIndexed;
use crate::detail::index::SumKey;
use crate::detail::index::index_get;
use crate::detail::index::index_len;
use crate::detail::index::index_states;
use crate::detail::part::state_views;
use crate::patch::sums_contain;
use crate::state::PartState;
use crate::state::StateView;
use crate::sum::Sum;

verus! {

/// Whether `path` leads from a known state to known states, each one a
/// parent of the one before it.
pub open spec fn is_chain(states: Map<Sum, StateView>, path: Seq<Sum>) -> bool {
    &&& path.len() > 0
    &&& forall|i: int| 0 <= i < path.len() ==> states.contains_key(#[trigger] path[i])
    &&& forall|i: int|
        0 <= i < path.len() - 1 ==> (#[trigger] states[path[i]]).parents.contains(path[i + 1])
}

/// Whether `a` is an ancestor of `d` among the known states: `d` itself, a
/// parent of `d`, a parent of a parent, and so on, all of them known.
pub open spec fn is_ancestor(states: Map<Sum, StateView>, a: Sum, d: Sum) -> bool {
    exists|path: Seq<Sum>| #[trigger] is_chain(states, path) && path[0] == d && path.last() == a
}

/// An ancestor is a known state.
pub proof fn lemma_ancestor_known(states: Map<Sum, StateView>, a: Sum, d: Sum)
    requires
        is_ancestor(states, a, d),
    ensures
        states.contains_key(a),
        states.contains_key(d),
{
    let path = choose|path: Seq<Sum>| #[trigger]
        is_chain(states, path) && path[0] == d && path.last() == a;
    assert(states.contains_key(path[0]));
    assert(states.contains_key(path[path.len() - 1]));
}

/// A breadth-first walk along the parents: `visited` are the known states
/// found so far, in the order in which they were found, and `queue` are the
/// states that wait to be looked at. A state that waits and was found
/// before, or is not known, is passed over; any other is found, and its
/// parents wait behind those that wait already. The walk ends when nothing
/// waits. There is no result where it takes more than `fuel` steps.
pub open spec fn walk(
    states: Map<Sum, StateView>,
    visited: Seq<Sum>,
    queue: Seq<Sum>,
    fuel: nat,
) -> Option<Seq<Sum>>
    decreases fuel,
{
    if queue.len() == 0 {
        Some(visited)
    } else if fuel == 0 {
        None
    } else {
        let q = queue[0];
        if visited.contains(q) || !states.contains_key(q) {
            walk(states, visited, queue.drop_first(), (fuel - 1) as nat)
        } else {
            walk(
                states,
                visited.push(q),
                queue.drop_first() + states[q].parents,
                (fuel - 1) as nat,
            )
        }
    }
}

/// The known ancestors of `start` in the order in which the breadth-first
/// walk from `start` finds them.
pub open spec fn found_from(states: Map<Sum, StateView>, start: Sum) -> Seq<Sum> {
    let fuel = choose|fuel: nat| walk(states, Seq::empty(), seq![start], fuel) is Some;
    match walk(states, Seq::empty(), seq![start], fuel) {
        Some(v) => v,
        None => Seq::empty(),
    }
}

/// A walk that ends within `fuel` steps ends the same way with more.
pub proof fn lemma_walk_more(
    states: Map<Sum, StateView>,
    visited: Seq<Sum>,
    queue: Seq<Sum>,
    fuel: nat,
    more: nat,
)
    requires
        walk(states, visited, queue, fuel) is Some,
    ensures
        walk(states, visited, queue, fuel + more) == walk(states, visited, queue, fuel),
    decreases fuel,
{
    if queue.len() > 0 && fuel > 0 {
        let q = queue[0];
        if visited.contains(q) || !states.contains_key(q) {
            lemma_walk_more(states, visited, queue.drop_first(), (fuel - 1) as nat, more);
        } else {
            lemma_walk_more(
                states,
                visited.push(q),
                queue.drop_first() + states[q].parents,
                (fuel - 1) as nat,
                more,
            );
        }
        assert((fuel + more - 1) as nat == (fuel - 1) as nat + more);
    }
}

/// The result of a walk from `start` that ends is the order in which the
/// ancestors of `start` are found.
pub proof fn lemma_found(states: Map<Sum, StateView>, start: Sum, fuel: nat, v: Seq<Sum>)
    requires
        walk(states, Seq::empty(), seq![start], fuel) == Some(v),
    ensures
        found_from(states, start) == v,
{
    let other = choose|other: nat| walk(states, Seq::empty(), seq![start], other) is Some;
    if other <= fuel {
        lemma_walk_more(states, Seq::empty(), seq![start], other, (fuel - other) as nat);
        assert(other + (fuel - other) as nat == fuel);
    } else {
        lemma_walk_more(states, Seq::empty(), seq![start], fuel, (other - fuel) as nat);
        assert(fuel + (other - fuel) as nat == other);
    }
}

/// One step of a walk, for a state that waits first and is passed over.
pub proof fn lemma_walk_pass(
    states: Map<Sum, StateView>,
    visited: Seq<Sum>,
    queue: Seq<Sum>,
    rest: Seq<Sum>,
    fuel: nat,
)
    requires
        queue.len() > 0,
        visited.contains(queue[0]) || !states.contains_key(queue[0]),
        rest == queue.drop_first(),
    ensures
        walk(states, visited, queue, fuel + 1) == walk(states, visited, rest, fuel),
{
    assert((fuel + 1 - 1) as nat == fuel);
}

/// One step of a walk, for a state that waits first and is found.
pub proof fn lemma_walk_find(
    states: Map<Sum, StateView>,
    visited: Seq<Sum>,
    queue: Seq<Sum>,
    rest: Seq<Sum>,
    fuel: nat,
)
    requires
        queue.len() > 0,
        !visited.contains(queue[0]),
        states.contains_key(queue[0]),
        rest == queue.drop_first() + states[queue[0]].parents,
    ensures
        walk(states, visited, queue, fuel + 1) == walk(states, visited.push(queue[0]), rest, fuel),
{
    assert((fuel + 1 - 1) as nat == fuel);
}

/// Whether a walk from `start` is `steps` steps from its beginning where
/// `visited` are found and `rest` wait.
pub open spec fn walked(
    states: Map<Sum, StateView>,
    start: Sum,
    visited: Seq<Sum>,
    rest: Seq<Sum>,
    steps: nat,
) -> bool {
    forall|fuel: nat|
        walk(states, Seq::empty(), seq![start], fuel + steps) == #[trigger] walk(
            states,
            visited,
            rest,
            fuel,
        )
}

/// A walk that has passed over the state that waits first is one step
/// further.
pub proof fn lemma_walked_pass(
    states: Map<Sum, StateView>,
    start: Sum,
    visited: Seq<Sum>,
    queue: Seq<Sum>,
    rest: Seq<Sum>,
    steps: nat,
)
    requires
        walked(states, start, visited, queue, steps),
        queue.len() > 0,
        visited.contains(queue[0]) || !states.contains_key(queue[0]),
        rest == queue.drop_first(),
    ensures
        walked(states, start, visited, rest, steps + 1),
{
    assert forall|fuel: nat|
        walk(states, Seq::empty(), seq![start], fuel + (steps + 1)) == #[trigger] walk(
            states,
            visited,
            rest,
            fuel,
        ) by {
        lemma_walk_pass(states, visited, queue, rest, fuel);
        assert(walk(states, Seq::empty(), seq![start], (fuel + 1) + steps) == walk(
            states,
            visited,
            queue,
            fuel + 1,
        ));
        assert(fuel + (steps + 1) == (fuel + 1) + steps);
    }
}

/// A walk that has found the state that waits first is one step further.
pub proof fn lemma_walked_find(
    states: Map<Sum, StateView>,
    start: Sum,
    visited: Seq<Sum>,
    queue: Seq<Sum>,
    rest: Seq<Sum>,
    steps: nat,
)
    requires
        walked(states, start, visited, queue, steps),
        queue.len() > 0,
        !visited.contains(queue[0]),
        states.contains_key(queue[0]),
        rest == queue.drop_first() + states[queue[0]].parents,
    ensures
        walked(states, start, visited.push(queue[0]), rest, steps + 1),
{
    assert forall|fuel: nat|
        walk(states, Seq::empty(), seq![start], fuel + (steps + 1)) == #[trigger] walk(
            states,
            visited.push(queue[0]),
            rest,
            fuel,
        ) by {
        lemma_walk_find(states, visited, queue, rest, fuel);
        assert(walk(states, Seq::empty(), seq![start], (fuel + 1) + steps) == walk(
            states,
            visited,
            queue,
            fuel + 1,
        ));
        assert(fuel + (steps + 1) == (fuel + 1) + steps);
    }
}

/// A walk after which nothing waits has found the ancestors of its start
/// in their order.
pub proof fn lemma_walked_out(
    states: Map<Sum, StateView>,
    start: Sum,
    visited: Seq<Sum>,
    steps: nat,
)
    requires
        walked(states, start, visited, Seq::empty(), steps),
    ensures
        found_from(states, start) == visited,
{
    assert(walk(states, visited, Seq::empty(), 0) == Some(visited));
    assert(walk(states, Seq::empty(), seq![start], 0 + steps) == Some(visited));
    lemma_found(states, start, steps, visited);
}


/// The first state of `order` from place `i` on that is an ancestor of
/// `k`, if there is one.
pub open spec fn first_shared(
    states: Map<Sum, StateView>,
    order: Seq<Sum>,
    k: Sum,
    i: int,
) -> Option<Sum>
    decreases order.len() - i,
{
    if i < 0 || i >= order.len() {
        None
    } else if is_ancestor(states, order[i], k) {
        Some(order[i])
    } else {
        first_shared(states, order, k, i + 1)
    }
}

/// The latest common ancestor of `k1` and `k2`: the first ancestor of `k1`
/// that the breadth-first walk from `k2` finds.
pub open spec fn common_ancestor(states: Map<Sum, StateView>, k1: Sum, k2: Sum) -> Option<Sum> {
    first_shared(states, found_from(states, k2), k1, 0)
}

/// A known state is an ancestor of itself.
pub proof fn lemma_own_ancestor(states: Map<Sum, StateView>, k: Sum)
    requires
        states.contains_key(k),
    ensures
        is_ancestor(states, k, k),
{
    let path = seq![k];
    assert(is_chain(states, path));
    assert(path[0] == k && path.last() == k);
}

/// Whether `p` waits in the queue from place `head` on.
pub open spec fn pending(queue: Seq<Sum>, head: int, p: Sum) -> bool {
    exists|j: int| head <= j < queue.len() && #[trigger] queue[j] == p
}

/// Whether every known parent of a visited state is visited or waits.
pub open spec fn parents_followed(
    states: Map<Sum, StateView>,
    visited: Seq<Sum>,
    queue: Seq<Sum>,
    head: int,
) -> bool {
    forall|i: int, p: Sum|
        0 <= i < visited.len() && #[trigger] states[visited[i]].parents.contains(p)
            && states.contains_key(p) ==> visited.contains(p) || pending(queue, head, p)
}

/// Whether every state that waits is the start or a parent of a visited
/// state.
pub open spec fn queue_sound(
    states: Map<Sum, StateView>,
    visited: Seq<Sum>,
    queue: Seq<Sum>,
    head: int,
    start: Sum,
) -> bool {
    forall|j: int|
        head <= j < queue.len() ==> (#[trigger] queue[j]) == start || exists|i: int|
            0 <= i < visited.len() && #[trigger] states[visited[i]].parents.contains(queue[j])
}

/// Whether no known state has more than one parent.
pub open spec fn single_parent(states: Map<Sum, StateView>) -> bool {
    forall|k: Sum| states.contains_key(k) ==> (#[trigger] states[k]).parents.len() <= 1
}

/// Whether no ancestor of `start` has more than one parent: whether the
/// ancestors of `start` stand in one line.
#[verifier::opaque]
pub open spec fn lined(states: Map<Sum, StateView>, start: Sum) -> bool {
    forall|k: Sum| #[trigger] is_ancestor(states, k, start) ==> states[k].parents.len() <= 1
}

/// Whether no two different states are ancestors of each other.
pub open spec fn no_cycle(states: Map<Sum, StateView>) -> bool {
    forall|x: Sum, y: Sum|
        #[trigger] is_ancestor(states, x, y) && is_ancestor(states, y, x) ==> x == y
}

/// Whether `x` is an ancestor of `k1` and of `k2`.
pub open spec fn is_common(states: Map<Sum, StateView>, x: Sum, k1: Sum, k2: Sum) -> bool {
    is_ancestor(states, x, k1) && is_ancestor(states, x, k2)
}

/// Whether `a` is a latest common ancestor of `k1` and `k2`: a common
/// ancestor from which no other common ancestor descends.
pub open spec fn is_latest(states: Map<Sum, StateView>, a: Sum, k1: Sum, k2: Sum) -> bool {
    is_common(states, a, k1, k2) && forall|x: Sum|
        #[trigger] is_common(states, x, k1, k2) && is_ancestor(states, a, x) ==> x == a
}

/// Whether `a` is the first ancestor of `k1` in the breadth-first walk from
/// `k2`: it is found there, and nothing that is found before it is an
/// ancestor of `k1`.
pub open spec fn first_in_walk(states: Map<Sum, StateView>, a: Sum, k1: Sum, k2: Sum) -> bool {
    let order = found_from(states, k2);
    exists|i: int|
        0 <= i < order.len() && #[trigger] order[i] == a && is_ancestor(states, a, k1)
            && forall|j: int| 0 <= j < i ==> !is_ancestor(states, #[trigger] order[j], k1)
}

/// Whether each state of `visited` but the first is a parent of the one
/// before it.
pub open spec fn is_line(states: Map<Sum, StateView>, visited: Seq<Sum>) -> bool {
    forall|i: int|
        0 <= i < visited.len() - 1 ==> (#[trigger] states[visited[i]]).parents.contains(
            visited[i + 1],
        )
}

/// Whether at most one state waits, and that one is a parent of the state
/// that was visited last, or the start where none was visited.
pub open spec fn waits_in_line(
    states: Map<Sum, StateView>,
    visited: Seq<Sum>,
    queue: Seq<Sum>,
    head: int,
    start: Sum,
) -> bool {
    &&& queue.len() - head <= 1
    &&& forall|j: int|
        head <= j < queue.len() ==> if visited.len() == 0 {
            queue[j] == start
        } else {
            states[visited.last()].parents.contains(#[trigger] queue[j])
        }
}

/// A part of a line of known states is a chain.
pub proof fn lemma_line_part(states: Map<Sum, StateView>, visited: Seq<Sum>, i: int, j: int)
    requires
        is_line(states, visited),
        forall|k: int| 0 <= k < visited.len() ==> states.contains_key(#[trigger] visited[k]),
        0 <= i <= j < visited.len(),
    ensures
        is_ancestor(states, visited[j], visited[i]),
{
    let path = visited.subrange(i, j + 1);
    assert(is_chain(states, path)) by {
        assert forall|k: int| 0 <= k < path.len() implies states.contains_key(
            #[trigger] path[k],
        ) by {
            assert(path[k] == visited[i + k]);
        }
        assert forall|k: int| 0 <= k < path.len() - 1 implies (
        #[trigger] states[path[k]]).parents.contains(path[k + 1]) by {
            assert(path[k] == visited[i + k] && path[k + 1] == visited[i + k + 1]);
            assert(states[visited[i + k]].parents.contains(visited[i + k + 1]));
        }
    }
    assert(path[0] == visited[i] && path.last() == visited[j]);
}

/// Once nothing waits, every ancestor of the start has been visited.
pub proof fn lemma_all_visited(
    states: Map<Sum, StateView>,
    visited: Seq<Sum>,
    queue: Seq<Sum>,
    start: Sum,
    path: Seq<Sum>,
    n: int,
)
    requires
        parents_followed(states, visited, queue, queue.len() as int),
        states.contains_key(start) ==> visited.contains(start),
        is_chain(states, path),
        path[0] == start,
        0 <= n < path.len(),
    ensures
        visited.contains(path[n]),
    decreases n,
{
    if n > 0 {
        lemma_all_visited(states, visited, queue, start, path, n - 1);
        let i = choose|i: int| 0 <= i < visited.len() && visited[i] == path[n - 1];
        assert(states[path[n - 1]].parents.contains(path[n]));
        assert(states[visited[i]].parents.contains(path[n]));
        assert(states.contains_key(path[n]));
        assert(!pending(queue, queue.len() as int, path[n]));
    } else {
        assert(states.contains_key(path[0]));
    }
}

/// A sequence without duplicates of members of a finite set is no longer
/// than the set is large.
pub proof fn lemma_distinct_bounded(s: Seq<Sum>, dom: Set<Sum>)
    requires
        s.no_duplicates(),
        dom.finite(),
        forall|i: int| 0 <= i < s.len() ==> dom.contains(#[trigger] s[i]),
    ensures
        s.len() <= dom.len(),
{
    s.unique_seq_to_set();
    assert(s.to_set().subset_of(dom)) by {
        assert forall|x: Sum| s.to_set().contains(x) implies dom.contains(x) by {
            let i = choose|i: int| 0 <= i < s.len() && s[i] == x;
            assert(dom.contains(s[i]));
        }
    }
    vstd::set_lib::lemma_len_subset(s.to_set(), dom);
}

#[verifier::rlimit(60)]
/// The known ancestors of the state `start`, the state itself among them
/// where it is known, in the order in which a breadth-first walk from
/// `start` along the parents finds them.
pub fn ancestors_of(states: &HashIndexed<PartState, Sum, SumKey>, start: &Sum) -> (out: Vec<Sum>)
    requires
        index_states(*states).dom().finite(),
    ensures
        out@.no_duplicates(),
        forall|x: Sum|
            out@.contains(x) <==> is_ancestor(state_views(index_states(*states)), x, *start),
        lined(state_views(index_states(*states)), *start) ==> is_line(
            state_views(index_states(*states)),
            out@,
        ),
        out@.len() > 0 ==> out@[0] == *start,
        out@ == found_from(state_views(index_states(*states)), *start),
{
    let ghost m = index_states(*states);
    let ghost sv = state_views(m);
    let total = index_len(states);
    let mut visited: Vec<Sum> = Vec::new();
    let mut queue: Vec<Sum> = Vec::new();
    queue.push(*start);
    let mut head: usize = 0;
    let ghost mut steps: nat = 0;
    proof {
        assert(sv.dom() =~= m.dom());
        assert(queue@.subrange(0, 1) =~= seq![*start]);
        assert(visited@ =~= Seq::empty());
        assert(pending(queue@, 0, *start)) by {
            assert(queue@[0] == *start);
        }
    }
    while head < queue.len()
        invariant
            head <= queue.len(),
            m == index_states(*states),
            sv == state_views(m),
            m.dom().finite(),
            total == m.dom().len(),
            visited@.no_duplicates(),
            forall|i: int| 0 <= i < visited@.len() ==> m.contains_key(#[trigger] visited@[i]),
            forall|i: int| 0 <= i < visited@.len() ==> is_ancestor(sv, #[trigger] visited@[i], *start),
            queue_sound(sv, visited@, queue@, head as int, *start),
            parents_followed(sv, visited@, queue@, head as int),
            sv.contains_key(*start) ==> visited@.contains(*start) || pending(
                queue@,
                head as int,
                *start,
            ),
            lined(sv, *start) ==> is_line(sv, visited@) && waits_in_line(
                sv,
                visited@,
                queue@,
                head as int,
                *start,
            ),
            queue@.len() >= 1,
            queue@[0] == *start,
            visited@.len() > 0 ==> visited@[0] == *start,
            visited@.len() == 0 ==> queue@.len() == 1,
            walked(sv, *start, visited@, queue@.subrange(head as int, queue@.len() as int), steps),
        decreases total - visited@.len(), queue@.len() - head,
    {
        proof {
            lemma_distinct_bounded(visited@, m.dom());
        }
        let q = queue[head];
        let ghost queue0 = queue@;
        let ghost visited0 = visited@;
        let ghost head0 = head as int;
        head += 1;
        let known = if sums_contain(&visited, &q) {
            None
        } else {
            index_get(states, &q)
        };
        match known {
            None => {
                proof {
                    let waiting = queue0.subrange(head0, queue0.len() as int);
                    assert(waiting[0] == q);
                    assert(queue@.subrange(head as int, queue@.len() as int)
                        =~= waiting.drop_first());
                    lemma_walked_pass(
                        sv,
                        *start,
                        visited0,
                        waiting,
                        waiting.drop_first(),
                        steps,
                    );
                    steps = steps + 1;
                    assert forall|p: Sum| pending(queue0, head0, p) && p != q implies pending(
                        queue0,
                        head0 + 1,
                        p,
                    ) by {
                        let j = choose|j: int| head0 <= j < queue0.len() && queue0[j] == p;
                        assert(queue0[j] == p && j >= head0 + 1);
                    }
                    assert(parents_followed(sv, visited@, queue@, head as int)) by {
                        assert forall|i: int, p: Sum|
                            0 <= i < visited@.len() && #[trigger] sv[visited@[i]].parents.contains(
                                p,
                            ) && sv.contains_key(p) implies visited@.contains(p) || pending(
                            queue@,
                            head as int,
                            p,
                        ) by {
                            if !visited@.contains(p) {
                                assert(pending(queue0, head0, p));
                                assert(p != q);
                            }
                        }
                    }
                }
            },
            Some(state) => {
                proof {
                    // a path to `q`: `q` is the start, or the parent of a visited state
                    if q == *start {
                        let path = seq![q];
                        assert(is_chain(sv, path));
                        assert(path[0] == *start && path.last() == q);
                    } else {
                        assert(queue0[head0] == q);
                        let i = choose|i: int|
                            0 <= i < visited0.len() && #[trigger] sv[visited0[i]].parents.contains(
                                q,
                            );
                        let path = choose|path: Seq<Sum>| #[trigger]
                            is_chain(sv, path) && path[0] == *start && path.last() == visited0[i];
                        let longer = path.push(q);
                        assert(is_chain(sv, longer)) by {
                            assert forall|a: int| 0 <= a < longer.len() implies sv.contains_key(
                                #[trigger] longer[a],
                            ) by {
                                if a < path.len() {
                                    assert(longer[a] == path[a]);
                                }
                            }
                            assert forall|a: int| 0 <= a < longer.len() - 1 implies (
                            #[trigger] sv[longer[a]]).parents.contains(longer[a + 1]) by {
                                if a < path.len() - 1 {
                                    assert(longer[a] == path[a] && longer[a + 1] == path[a + 1]);
                                } else {
                                    assert(longer[a] == path.last());
                                }
                            }
                        }
                        assert(longer[0] == *start && longer.last() == q);
                    }
                    assert(is_ancestor(sv, q, *start));
                }
                visited.push(q);
                let ghost at = visited0.len() as int;
                proof {
                    assert(visited@[at] == q);
                    lemma_distinct_bounded(visited@, m.dom());
                    assert forall|p: Sum| visited0.contains(p) implies visited@.contains(p) by {
                        let i = choose|i: int| 0 <= i < visited0.len() && visited0[i] == p;
                        assert(visited@[i] == p);
                    }
                }
                let mut j: usize = 0;
                while j < state.parents.len()
                    invariant
                        j <= state.parents.len(),
                        head <= queue@.len(),
                        queue@ == queue0 + state.parents@.subrange(0, j as int),
                    decreases state.parents.len() - j,
                {
                    queue.push(state.parents[j]);
                    j += 1;
                    assert(queue@ =~= queue0 + state.parents@.subrange(0, j as int));
                }
                proof {
                    let ps = state.parents@;
                    assert(ps.subrange(0, ps.len() as int) =~= ps);
                    assert(sv[q].parents == ps);
                    let waiting = queue0.subrange(head0, queue0.len() as int);
                    assert(waiting[0] == q);
                    assert(queue@.subrange(head as int, queue@.len() as int)
                        =~= waiting.drop_first() + ps);
                    lemma_walked_find(
                        sv,
                        *start,
                        visited0,
                        waiting,
                        waiting.drop_first() + ps,
                        steps,
                    );
                    assert(visited@ =~= visited0.push(q));
                    steps = steps + 1;
                    assert forall|p: Sum| pending(queue0, head0, p) && p != q implies pending(
                        queue@,
                        head as int,
                        p,
                    ) by {
                        let j = choose|j: int| head0 <= j < queue0.len() && queue0[j] == p;
                        assert(queue@[j] == p && j >= head0 + 1);
                    }
                    assert forall|p: Sum| ps.contains(p) implies pending(queue@, head as int, p) by {
                        let a = choose|a: int| 0 <= a < ps.len() && ps[a] == p;
                        assert(queue@[queue0.len() + a] == p);
                    }
                    assert(queue_sound(sv, visited@, queue@, head as int, *start)) by {
                        assert forall|j: int| head <= j < queue@.len() implies (
                        #[trigger] queue@[j]) == *start || exists|i: int|
                            0 <= i < visited@.len() && #[trigger] sv[visited@[i]].parents.contains(
                                queue@[j],
                            ) by {
                            if j < queue0.len() {
                                assert(queue@[j] == queue0[j]);
                                if queue0[j] != *start {
                                    let i = choose|i: int|
                                        0 <= i < visited0.len() && #[trigger] sv[visited0[i]].parents.contains(
                                            queue0[j],
                                        );
                                    assert(visited@[i] == visited0[i]);
                                    assert(sv[visited@[i]].parents.contains(queue@[j]));
                                }
                            } else {
                                assert(queue@[j] == ps[j - queue0.len()]);
                                assert(sv[visited@[at]].parents.contains(queue@[j]));
                            }
                        }
                    }
                    assert(parents_followed(sv, visited@, queue@, head as int)) by {
                        assert forall|i: int, p: Sum|
                            0 <= i < visited@.len() && #[trigger] sv[visited@[i]].parents.contains(
                                p,
                            ) && sv.contains_key(p) implies visited@.contains(p) || pending(
                            queue@,
                            head as int,
                            p,
                        ) by {
                            if i < at {
                                assert(visited@[i] == visited0[i]);
                                assert(sv[visited0[i]].parents.contains(p));
                                if !visited0.contains(p) {
                                    assert(pending(queue0, head0, p));
                                    if p == q {
                                        assert(visited@[at] == p);
                                    }
                                }
                            }
                        }
                    }
                    if sv.contains_key(*start) && !visited0.contains(*start) {
                        if *start == q {
                            assert(visited@[at] == *start);
                        }
                    }
                    if lined(sv, *start) {
                        assert(queue0[head0] == q);
                        assert(head0 + 1 == queue0.len());
                        assert(sv.contains_key(q) && sv[q].parents.len() <= 1) by {
                            reveal(lined);
                        }
                        assert(visited@.last() == q);
                        assert(is_line(sv, visited@)) by {
                            assert forall|i: int| 0 <= i < visited@.len() - 1 implies (
                            #[trigger] sv[visited@[i]]).parents.contains(visited@[i + 1]) by {
                                if i < at - 1 {
                                    assert(visited@[i] == visited0[i] && visited@[i + 1]
                                        == visited0[i + 1]);
                                    assert(sv[visited0[i]].parents.contains(visited0[i + 1]));
                                } else {
                                    assert(visited@[i] == visited0.last());
                                    assert(visited@[i + 1] == q);
                                }
                            }
                        }
                        assert(waits_in_line(sv, visited@, queue@, head as int, *start)) by {
                            assert forall|j: int| head <= j < queue@.len() implies sv[visited@.last()].parents.contains(
                                #[trigger] queue@[j],
                            ) by {
                                assert(queue@[j] == ps[j - queue0.len()]);
                            }
                        }
                    }
                }
            },
        }
    }
    proof {
        assert(queue@.subrange(head as int, queue@.len() as int) =~= Seq::empty());
        lemma_walked_out(sv, *start, visited@, steps);
        assert forall|x: Sum| visited@.contains(x) <==> is_ancestor(sv, x, *start) by {
            if visited@.contains(x) {
                let i = choose|i: int| 0 <= i < visited@.len() && visited@[i] == x;
                assert(is_ancestor(sv, visited@[i], *start));
            }
            if is_ancestor(sv, x, *start) {
                let path = choose|path: Seq<Sum>| #[trigger]
                    is_chain(sv, path) && path[0] == *start && path.last() == x;
                assert(sv.contains_key(path[0]));
                assert(!pending(queue@, queue@.len() as int, *start));
                lemma_all_visited(sv, visited@, queue@, *start, path, path.len() - 1);
            }
        }
    }
    visited
}

} // verus!
