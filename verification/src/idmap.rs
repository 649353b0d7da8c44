//! A map from 64-bit identifiers to values, kept as a sequence of entries
//! in strictly increasing order of identifier, so that walking the map is
//! deterministic.

use vstd::prelude::*;

verus! {

/// Whether the identifiers of `s` increase strictly.
pub open spec fn increasing<T>(s: Seq<(u64, T)>) -> bool {
    forall|i: int, j: int| 0 <= i < j < s.len() ==> s[i].0 < s[j].0
}

/// Number of entries of `s` whose identifier is below `id`. In an increasing
/// sequence this is the place where `id` stands or would be inserted.
pub open spec fn rank<T>(s: Seq<(u64, T)>, id: u64) -> int
    decreases s.len(),
{
    if s.len() == 0 {
        0
    } else {
        rank(s.drop_last(), id) + if s.last().0 < id {
            1int
        } else {
            0int
        }
    }
}

/// Whether `s` has an entry for `id`.
pub open spec fn holds<T>(s: Seq<(u64, T)>, id: u64) -> bool {
    rank(s, id) < s.len() && s[rank(s, id)].0 == id
}

/// The value that `s` holds for `id`, if any.
pub open spec fn get<T>(s: Seq<(u64, T)>, id: u64) -> Option<T> {
    if holds(s, id) {
        Some(s[rank(s, id)].1)
    } else {
        None
    }
}

/// `s` with `id` mapped to `v`, whether or not `id` had an entry.
pub open spec fn put<T>(s: Seq<(u64, T)>, id: u64, v: T) -> Seq<(u64, T)> {
    if holds(s, id) {
        s.update(rank(s, id), (id, v))
    } else {
        s.insert(rank(s, id), (id, v))
    }
}

/// `s` without the entry for `id`.
pub open spec fn del<T>(s: Seq<(u64, T)>, id: u64) -> Seq<(u64, T)> {
    if holds(s, id) {
        s.remove(rank(s, id))
    } else {
        s
    }
}

/// The rank is a place in the sequence or just behind it.
pub proof fn lemma_rank_bounds<T>(s: Seq<(u64, T)>, id: u64)
    ensures
        0 <= rank(s, id) <= s.len(),
    decreases s.len(),
{
    if s.len() > 0 {
        lemma_rank_bounds(s.drop_last(), id);
    }
}

/// In an increasing sequence the rank of `id` splits the entries into those
/// below `id` and those not below it.
pub proof fn lemma_rank<T>(s: Seq<(u64, T)>, id: u64)
    requires
        increasing(s),
    ensures
        0 <= rank(s, id) <= s.len(),
        forall|i: int| 0 <= i < rank(s, id) ==> (#[trigger] s[i]).0 < id,
        forall|i: int| rank(s, id) <= i < s.len() ==> (#[trigger] s[i]).0 >= id,
    decreases s.len(),
{
    if s.len() > 0 {
        let t = s.drop_last();
        assert(increasing(t)) by {
            assert forall|i: int, j: int| 0 <= i < j < t.len() implies t[i].0 < t[j].0 by {
                assert(t[i] == s[i] && t[j] == s[j]);
            }
        }
        lemma_rank(t, id);
        assert forall|i: int| 0 <= i < rank(s, id) implies (#[trigger] s[i]).0 < id by {
            if i < t.len() {
                assert(t[i] == s[i]);
                if i >= rank(t, id) {
                    // then the last entry is below `id`, and so is every entry
                    assert(s[i].0 < s[s.len() - 1].0 || i == s.len() - 1);
                }
            }
        }
        assert forall|i: int| rank(s, id) <= i < s.len() implies (#[trigger] s[i]).0 >= id by {
            if i < t.len() {
                assert(t[i] == s[i]);
            }
        }
    }
}

/// The split of `lemma_rank` determines the rank.
pub proof fn lemma_rank_is<T>(s: Seq<(u64, T)>, id: u64, r: int)
    requires
        increasing(s),
        0 <= r <= s.len(),
        forall|i: int| 0 <= i < r ==> (#[trigger] s[i]).0 < id,
        forall|i: int| r <= i < s.len() ==> (#[trigger] s[i]).0 >= id,
    ensures
        r == rank(s, id),
{
    lemma_rank(s, id);
    let q = rank(s, id);
    if r < q {
        assert(s[r].0 < id);
    } else if q < r {
        assert(s[q].0 >= id);
    }
}

/// Mapping `id` to `v` keeps the order, maps `id` to `v` and leaves every
/// other identifier as it was.
pub proof fn lemma_put<T>(s: Seq<(u64, T)>, id: u64, v: T)
    requires
        increasing(s),
    ensures
        increasing(put(s, id, v)),
        get(put(s, id, v), id) == Some(v),
        forall|k: u64| k != id ==> get(put(s, id, v), k) == #[trigger] get(s, k),
        forall|k: u64| holds(put(s, id, v), k) == (k == id || #[trigger] holds(s, k)),
{
    lemma_rank(s, id);
    let r = rank(s, id);
    let t = put(s, id, v);
    assert(increasing(t)) by {
        assert forall|i: int, j: int| 0 <= i < j < t.len() implies t[i].0 < t[j].0 by {
            if holds(s, id) {
                assert(t[i].0 == s[i].0 && t[j].0 == s[j].0);
            } else {
                let si = if i < r { i } else { i - 1 };
                let sj = if j < r { j } else { j - 1 };
                if i != r && j != r {
                    assert(t[i] == s[si] && t[j] == s[sj]);
                } else if i == r {
                    assert(t[j] == s[sj]);
                    assert(s[sj].0 >= id && s[sj].0 != id);
                } else {
                    assert(t[i] == s[si]);
                }
            }
        }
    }
    assert forall|k: u64| true implies ({
        &&& holds(t, k) == (k == id || holds(s, k))
        &&& get(t, k) == if k == id { Some(v) } else { get(s, k) }
    }) by {
        lemma_rank(s, k);
        let q = rank(s, k);
        if holds(s, id) {
            lemma_rank_is(t, k, q);
        } else {
            let q2 = if k <= id { q } else { q + 1 };
            assert(q <= r || k > id);
            assert(forall|i: int| 0 <= i < q2 ==> (#[trigger] t[i]).0 < k) by {
                assert forall|i: int| 0 <= i < q2 implies (#[trigger] t[i]).0 < k by {
                    if i < r {
                        assert(t[i] == s[i]);
                    } else if i > r {
                        assert(t[i] == s[i - 1]);
                    }
                }
            }
            assert(forall|i: int| q2 <= i < t.len() ==> (#[trigger] t[i]).0 >= k) by {
                assert forall|i: int| q2 <= i < t.len() implies (#[trigger] t[i]).0 >= k by {
                    if i < r {
                        assert(t[i] == s[i]);
                    } else if i > r {
                        assert(t[i] == s[i - 1]);
                    }
                }
            }
            lemma_rank_is(t, k, q2);
            if k != id && q2 < t.len() {
                if q2 < r {
                    assert(t[q2] == s[q2]);
                } else if q2 > r {
                    assert(t[q2] == s[q2 - 1]);
                } else {
                    assert(k < id);
                    assert(q == r);
                    assert(q >= s.len() || s[q].0 > k) by {
                        if q < s.len() { assert(s[q].0 >= id); }
                    }
                }
            }
        }
    }
}

/// Removing `id` keeps the order, leaves `id` without an entry and every
/// other identifier as it was.
pub proof fn lemma_del<T>(s: Seq<(u64, T)>, id: u64)
    requires
        increasing(s),
    ensures
        increasing(del(s, id)),
        !holds(del(s, id), id),
        forall|k: u64| k != id ==> get(del(s, id), k) == #[trigger] get(s, k),
        forall|k: u64| holds(del(s, id), k) == (k != id && #[trigger] holds(s, k)),
{
    lemma_rank(s, id);
    let r = rank(s, id);
    let t = del(s, id);
    if holds(s, id) {
        assert(increasing(t)) by {
            assert forall|i: int, j: int| 0 <= i < j < t.len() implies t[i].0 < t[j].0 by {
                let si = if i < r { i } else { i + 1 };
                let sj = if j < r { j } else { j + 1 };
                assert(t[i] == s[si] && t[j] == s[sj]);
            }
        }
        assert forall|k: u64| true implies ({
            &&& holds(t, k) == (k != id && holds(s, k))
            &&& k != id ==> get(t, k) == get(s, k)
        }) by {
            lemma_rank(s, k);
            let q = rank(s, k);
            let q2 = if k <= id { q } else { q - 1 };
            if k > id {
                assert(q > r) by {
                    if q <= r { assert(s[r].0 >= k); }
                }
            } else {
                assert(q <= r) by {
                    if q > r { assert(s[r].0 < k); }
                }
            }
            assert forall|i: int| 0 <= i < q2 implies (#[trigger] t[i]).0 < k by {
                if i < r {
                    assert(t[i] == s[i]);
                } else {
                    assert(t[i] == s[i + 1]);
                }
            }
            assert forall|i: int| q2 <= i < t.len() implies (#[trigger] t[i]).0 >= k by {
                if i < r {
                    assert(t[i] == s[i]);
                } else {
                    assert(t[i] == s[i + 1]);
                    assert(s[i + 1].0 > id) by { assert(s[r].0 < s[i + 1].0); }
                }
            }
            lemma_rank_is(t, k, q2);
            if q2 < t.len() {
                if q2 < r {
                    assert(t[q2] == s[q2]);
                } else {
                    assert(t[q2] == s[q2 + 1]);
                    assert(s[q2 + 1].0 > id) by { assert(s[r].0 < s[q2 + 1].0); }
                }
            }
            if k == id {
                assert(q == r);
            }
        }
    } else {
        assert forall|k: u64| true implies holds(t, k) == (k != id && holds(s, k)) by {}
    }
}

/// An identifier above all those of `s` is mapped by appending its entry.
pub proof fn lemma_put_last<T>(s: Seq<(u64, T)>, id: u64, v: T)
    requires
        increasing(s),
        s.len() == 0 || s.last().0 < id,
    ensures
        !holds(s, id),
        rank(s, id) == s.len(),
        put(s, id, v) == s.push((id, v)),
{
    assert forall|i: int| 0 <= i < s.len() implies (#[trigger] s[i]).0 < id by {
        if i < s.len() - 1 {
            assert(s[i].0 < s[s.len() - 1].0);
        }
    }
    lemma_rank_is(s, id, s.len() as int);
    assert(s.insert(s.len() as int, (id, v)) =~= s.push((id, v)));
}

/// Two increasing sequences that hold the same value for every identifier
/// are the same sequence.
pub proof fn lemma_same_entries<T>(a: Seq<(u64, T)>, b: Seq<(u64, T)>)
    requires
        increasing(a),
        increasing(b),
        forall|k: u64| get(a, k) == get(b, k),
    ensures
        a == b,
    decreases a.len(),
{
    if a.len() == 0 {
        if b.len() > 0 {
            let k = b[0].0;
            lemma_rank_is(b, k, 0);
            assert(holds(b, k));
            assert(get(a, k) is None);
        }
        assert(a =~= b);
    } else {
        let k = a.last().0;
        let v = a.last().1;
        lemma_rank_is(a, k, a.len() - 1);
        assert(get(a, k) == Some(v));
        lemma_rank(b, k);
        let r = rank(b, k);
        assert(holds(b, k));
        assert(r == b.len() - 1) by {
            if r < b.len() - 1 {
                let k2 = b[r + 1].0;
                assert(b[r].0 < b[r + 1].0);
                assert forall|i: int| 0 <= i < r + 1 implies (#[trigger] b[i]).0 < k2 by {
                    assert(b[i].0 < b[r + 1].0);
                }
                assert forall|i: int| r + 1 <= i < b.len() implies (#[trigger] b[i]).0 >= k2 by {
                    if i > r + 1 {
                        assert(b[r + 1].0 < b[i].0);
                    }
                }
                lemma_rank_is(b, k2, r + 1);
                assert(holds(b, k2));
                assert(get(a, k2) == get(b, k2));
                assert(holds(a, k2));
                lemma_rank(a, k2);
                let q = rank(a, k2);
                assert(q == a.len() - 1 || a[q].0 < a[a.len() - 1].0);
            }
        }
        let a2 = a.drop_last();
        let b2 = b.drop_last();
        lemma_del(a, k);
        lemma_del(b, k);
        assert(del(a, k) =~= a2);
        assert(del(b, k) =~= b2);
        assert forall|q: u64| get(a2, q) == get(b2, q) by {
            if q != k {
                assert(get(a2, q) == get(a, q));
                assert(get(b2, q) == get(b, q));
            }
        }
        lemma_same_entries(a2, b2);
        assert(a =~= a2.push(a.last()));
        assert(b =~= b2.push(b.last()));
        assert(b.last() == (k, v));
    }
}

/// The entries with each value replaced by its view.
pub open spec fn entry_views<V: View>(s: Seq<(u64, V)>) -> Seq<(u64, V::V)> {
    s.map_values(|e: (u64, V)| (e.0, e.1@))
}

/// Taking views keeps the identifiers, and with them the order.
pub proof fn lemma_views<V: View>(s: Seq<(u64, V)>)
    ensures
        entry_views(s).len() == s.len(),
        forall|i: int| 0 <= i < s.len() ==> (#[trigger] entry_views(s)[i]) == (s[i].0, s[i].1@),
        increasing(s) ==> increasing(entry_views(s)),
{
}

/// Taking views keeps the rank of every identifier and what is held for it.
pub proof fn lemma_views_rank<V: View>(s: Seq<(u64, V)>, id: u64)
    ensures
        rank(entry_views(s), id) == rank(s, id),
        holds(entry_views(s), id) == holds(s, id),
        get(entry_views(s), id) == match get(s, id) {
            Some(v) => Some(v@),
            None => None,
        },
    decreases s.len(),
{
    lemma_rank_bounds(s, id);
    if s.len() > 0 {
        assert(entry_views(s).drop_last() =~= entry_views(s.drop_last()));
        lemma_views_rank(s.drop_last(), id);
        if rank(s, id) < s.len() {
            assert(entry_views(s)[rank(s, id)].0 == s[rank(s, id)].0);
        }
    }
}

/// Mapping an identifier to a value and taking views is taking views and
/// mapping the identifier to the view of the value.
pub proof fn lemma_views_put<V: View>(s: Seq<(u64, V)>, id: u64, v: V)
    ensures
        entry_views(put(s, id, v)) == put(entry_views(s), id, v@),
{
    lemma_views_rank(s, id);
    lemma_rank_bounds(s, id);
    assert(entry_views(put(s, id, v)) =~= put(entry_views(s), id, v@));
}

/// Removing an identifier and taking views is taking views and removing
/// the identifier.
pub proof fn lemma_views_del<V: View>(s: Seq<(u64, V)>, id: u64)
    ensures
        entry_views(del(s, id)) == del(entry_views(s), id),
{
    lemma_views_rank(s, id);
    lemma_rank_bounds(s, id);
    assert(entry_views(del(s, id)) =~= del(entry_views(s), id));
}

/// The map itself.
#[derive(Clone, Debug, PartialEq, Eq)]
pub struct IdMap<V> {
    items: Vec<(u64, V)>,
}

impl<V> IdMap<V> {
    /// The entries, in increasing order of identifier.
    pub closed spec fn entries(&self) -> Seq<(u64, V)> {
        self.items@
    }

    /// The invariant: identifiers increase strictly.
    pub open spec fn wf(&self) -> bool {
        increasing(self.entries())
    }

    /// A map in memory has no more entries than the machine can count.
    pub proof fn lemma_bounded(&self)
        ensures
            self.entries().len() <= usize::MAX,
    {
        assert(self.items.len() <= usize::MAX);
    }

    /// The empty map.
    pub fn new() -> (m: Self)
        ensures
            m.wf(),
            m.entries().len() == 0,
    {
        IdMap { items: Vec::new() }
    }

    /// Number of entries.
    pub fn len(&self) -> (n: usize)
        ensures
            n == self.entries().len(),
    {
        self.items.len()
    }

    /// Identifier of the entry at place `i`.
    pub fn id_at(&self, i: usize) -> (id: u64)
        requires
            i < self.entries().len(),
        ensures
            id == self.entries()[i as int].0,
    {
        self.items[i].0
    }

    /// Value of the entry at place `i`.
    pub fn value_at(&self, i: usize) -> (v: &V)
        requires
            i < self.entries().len(),
        ensures
            *v == self.entries()[i as int].1,
    {
        &self.items[i].1
    }

    /// Place where `id` stands or would be inserted.
    pub fn lower_bound(&self, id: u64) -> (r: usize)
        requires
            self.wf(),
        ensures
            r == rank(self.entries(), id),
            r <= self.entries().len(),
    {
        let mut lo: usize = 0;
        let mut hi: usize = self.items.len();
        while lo < hi
            invariant
                lo <= hi <= self.items@.len(),
                increasing(self.items@),
                forall|i: int| 0 <= i < lo ==> (#[trigger] self.items@[i]).0 < id,
                forall|i: int| hi <= i < self.items@.len() ==> (#[trigger] self.items@[i]).0 >= id,
            decreases hi - lo,
        {
            let mid = lo + (hi - lo) / 2;
            if self.items[mid].0 < id {
                assert forall|i: int| 0 <= i < mid + 1 implies (#[trigger] self.items@[i]).0
                    < id by {
                    if i < mid {
                        assert(self.items@[i].0 < self.items@[mid as int].0);
                    }
                }
                lo = mid + 1;
            } else {
                assert forall|i: int| mid <= i < self.items@.len() implies (
                #[trigger] self.items@[i]).0 >= id by {
                    if i > mid {
                        assert(self.items@[mid as int].0 < self.items@[i].0);
                    }
                }
                hi = mid;
            }
        }
        proof {
            lemma_rank_is(self.items@, id, lo as int);
        }
        lo
    }

    /// Whether `id` has an entry.
    pub fn contains(&self, id: u64) -> (r: bool)
        requires
            self.wf(),
        ensures
            r == holds(self.entries(), id),
    {
        let r = self.lower_bound(id);
        r < self.items.len() && self.items[r].0 == id
    }

    /// The value of `id`, if it has one.
    pub fn get(&self, id: u64) -> (r: Option<&V>)
        requires
            self.wf(),
        ensures
            r is Some == holds(self.entries(), id),
            r matches Some(v) ==> get(self.entries(), id) == Some(*v),
    {
        let r = self.lower_bound(id);
        if r < self.items.len() && self.items[r].0 == id {
            Some(&self.items[r].1)
        } else {
            None
        }
    }

    /// Maps `id` to `v` and returns the value that `id` had.
    pub fn insert(&mut self, id: u64, v: V) -> (r: Option<V>)
        requires
            old(self).wf(),
        ensures
            final(self).wf(),
            final(self).entries() == put(old(self).entries(), id, v),
            r == get(old(self).entries(), id),
    {
        let r = self.lower_bound(id);
        proof {
            lemma_put(self.items@, id, v);
        }
        if r < self.items.len() && self.items[r].0 == id {
            let prev = self.items.remove(r);
            self.items.insert(r, (id, v));
            assert(self.items@ =~= old(self).items@.update(r as int, (id, v)));
            Some(prev.1)
        } else {
            self.items.insert(r, (id, v));
            None
        }
    }

    /// Removes the entry of `id` and returns its value.
    pub fn remove(&mut self, id: u64) -> (r: Option<V>)
        requires
            old(self).wf(),
        ensures
            final(self).wf(),
            final(self).entries() == del(old(self).entries(), id),
            r == get(old(self).entries(), id),
    {
        let r = self.lower_bound(id);
        proof {
            lemma_del(self.items@, id);
        }
        if r < self.items.len() && self.items[r].0 == id {
            let prev = self.items.remove(r);
            Some(prev.1)
        } else {
            None
        }
    }

    /// Appends an entry whose identifier is above all others.
    pub fn push(&mut self, id: u64, v: V)
        requires
            old(self).wf(),
            old(self).entries().len() == 0 || old(self).entries().last().0 < id,
        ensures
            final(self).wf(),
            final(self).entries() == old(self).entries().push((id, v)),
            final(self).entries() == put(old(self).entries(), id, v),
    {
        proof {
            lemma_put(self.items@, id, v);
            lemma_put_last(self.items@, id, v);
        }
        self.items.push((id, v));
    }
}

} // verus!
