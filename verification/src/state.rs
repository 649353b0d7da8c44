//! States of a partition: the elements that it holds at one point of its
//! history, and the checksum that identifies them.

use vstd::prelude::*;
use crate::commit::CommitMeta;
use crate::commit::MetaView;
use crate::commit::blank_meta;
use crate::commit::meta_sum_of;
use crate::commit::MAX_PARENTS;
use crate::elt::Element;
use crate::error::Error;
use crate::ids::EltId;
use crate::ids::PartId;
use crate::ids::part_bits;
use crate::ids::ELTS_PER_PART;
use crate::idmap::IdMap;
use crate::idmap::entry_views;
use crate::idmap::increasing;
use crate::idmap::rank;
use crate::idmap::holds;
use crate::idmap::get;
use crate::idmap::put;
use crate::idmap::del;
use crate::idmap::lemma_rank;
use crate::idmap::lemma_put;
use crate::idmap::lemma_del;
use crate::idmap::lemma_views;
use crate::idmap::lemma_views_rank;
use crate::idmap::lemma_views_put;
use crate::idmap::lemma_views_del;
use crate::sum::Sum;
use crate::sum::elt_sum_of;
use crate::sum::lemma_xor_laws;

verus! {

/// The entries of a map of elements, each element as its payload.
pub open spec fn elt_views(s: Seq<(u64, Element)>) -> Seq<(u64, Seq<u8>)> {
    entry_views(s)
}

/// The exclusive or of the checksums of all elements.
pub open spec fn xor_sums(s: Seq<(u64, Seq<u8>)>) -> Sum
    decreases s.len(),
{
    if s.len() == 0 {
        Sum::zero_sum()
    } else {
        xor_sums(s.drop_last()).xored(elt_sum_of(s.last().0, s.last().1))
    }
}

/// Whether every element belongs to the partition `part`.
pub open spec fn owned_by(s: Seq<(u64, Seq<u8>)>, part: PartId) -> bool {
    forall|i: int| 0 <= i < s.len() ==> part_bits((#[trigger] s[i]).0) == part.id
}

/// Whether no checksum occurs twice in `s`.
pub open spec fn distinct(s: Seq<Sum>) -> bool {
    forall|i: int, j: int| 0 <= i < j < s.len() ==> s[i] != s[j]
}

/// An entry put in at any place adds its checksum.
pub proof fn lemma_xor_insert(s: Seq<(u64, Seq<u8>)>, i: int, x: (u64, Seq<u8>))
    requires
        0 <= i <= s.len(),
    ensures
        xor_sums(s.insert(i, x)) == xor_sums(s).xored(elt_sum_of(x.0, x.1)),
    decreases s.len(),
{
    let t = s.insert(i, x);
    if i == s.len() {
        assert(t.drop_last() =~= s);
    } else {
        assert(t.drop_last() =~= s.drop_last().insert(i, x));
        assert(t.last() == s.last());
        lemma_xor_insert(s.drop_last(), i, x);
        lemma_xor_laws(
            xor_sums(s.drop_last()),
            elt_sum_of(x.0, x.1),
            elt_sum_of(s.last().0, s.last().1),
        );
        lemma_xor_laws(
            xor_sums(s.drop_last()),
            elt_sum_of(s.last().0, s.last().1),
            elt_sum_of(x.0, x.1),
        );
        lemma_xor_laws(
            elt_sum_of(x.0, x.1),
            elt_sum_of(s.last().0, s.last().1),
            Sum::zero_sum(),
        );
    }
}

/// An entry taken out takes its checksum out.
pub proof fn lemma_xor_remove(s: Seq<(u64, Seq<u8>)>, i: int)
    requires
        0 <= i < s.len(),
    ensures
        xor_sums(s.remove(i)) == xor_sums(s).xored(elt_sum_of(s[i].0, s[i].1)),
{
    let t = s.remove(i);
    assert(t.insert(i, s[i]) =~= s);
    lemma_xor_insert(t, i, s[i]);
    lemma_xor_laws(xor_sums(t), elt_sum_of(s[i].0, s[i].1), Sum::zero_sum());
}

/// What mapping `id` to the payload `d` does to the exclusive or of the
/// checksums: the checksum of the new payload comes in, and that of the old
/// one, if there was one, goes out.
pub proof fn lemma_xor_put(s: Seq<(u64, Seq<u8>)>, id: u64, d: Seq<u8>)
    requires
        increasing(s),
    ensures
        xor_sums(put(s, id, d)) == match get(s, id) {
            None => xor_sums(s).xored(elt_sum_of(id, d)),
            Some(was) => xor_sums(s).xored(elt_sum_of(id, was)).xored(elt_sum_of(id, d)),
        },
{
    lemma_rank(s, id);
    let r = rank(s, id);
    if holds(s, id) {
        let t = s.remove(r);
        assert(s.update(r, (id, d)) =~= t.insert(r, (id, d)));
        lemma_xor_remove(s, r);
        lemma_xor_insert(t, r, (id, d));
    } else {
        lemma_xor_insert(s, r, (id, d));
    }
}

/// What removing `id` does to the exclusive or of the checksums.
pub proof fn lemma_xor_del(s: Seq<(u64, Seq<u8>)>, id: u64)
    requires
        increasing(s),
    ensures
        xor_sums(del(s, id)) == match get(s, id) {
            None => xor_sums(s),
            Some(was) => xor_sums(s).xored(elt_sum_of(id, was)),
        },
{
    lemma_rank(s, id);
    if holds(s, id) {
        lemma_xor_remove(s, rank(s, id));
    }
}

/// Elements stay with their partition when one of its elements is mapped
/// or removed.
pub proof fn lemma_owned(s: Seq<(u64, Seq<u8>)>, part: PartId, id: u64, d: Seq<u8>)
    requires
        increasing(s),
        owned_by(s, part),
    ensures
        part_bits(id) == part.id ==> owned_by(put(s, id, d), part),
        owned_by(del(s, id), part),
{
    lemma_rank(s, id);
    let r = rank(s, id);
    if part_bits(id) == part.id {
        let t = put(s, id, d);
        assert forall|i: int| 0 <= i < t.len() implies part_bits((#[trigger] t[i]).0)
            == part.id by {
            if holds(s, id) {
                if i != r {
                    assert(t[i] == s[i]);
                }
            } else {
                if i < r {
                    assert(t[i] == s[i]);
                } else if i > r {
                    assert(t[i] == s[i - 1]);
                }
            }
        }
    }
    let u = del(s, id);
    assert forall|i: int| 0 <= i < u.len() implies part_bits((#[trigger] u[i]).0) == part.id by {
        if holds(s, id) {
            if i < r {
                assert(u[i] == s[i]);
            } else {
                assert(u[i] == s[i + 1]);
            }
        }
    }
}

/// What a state holds.
pub struct StateView {
    pub part_id: PartId,
    pub parents: Seq<Sum>,
    pub elts: Seq<(u64, Seq<u8>)>,
    pub meta: MetaView,
    pub elt_sum: Sum,
    pub meta_sum: Sum,
    pub statesum: Sum,
}

/// What a state under construction holds.
pub struct MutView {
    pub part_id: PartId,
    pub parent: Sum,
    pub elts: Seq<(u64, Seq<u8>)>,
    pub elt_sum: Sum,
}

/// The checksum of the metadata of a state: zero for a state without
/// parents, the checksum of the metadata for every other state.
pub open spec fn state_meta_sum(parents: Seq<Sum>, meta: MetaView) -> Sum {
    if parents.len() == 0 {
        Sum::zero_sum()
    } else {
        meta_sum_of(meta)
    }
}

/// The state with the given elements, parents and metadata.
pub open spec fn state_of(
    part_id: PartId,
    elts: Seq<(u64, Seq<u8>)>,
    parents: Seq<Sum>,
    meta: MetaView,
) -> StateView {
    StateView {
        part_id,
        parents,
        elts,
        meta,
        elt_sum: xor_sums(elts),
        meta_sum: state_meta_sum(parents, meta),
        statesum: xor_sums(elts).xored(state_meta_sum(parents, meta)),
    }
}

/// The state under construction that starts from the state `s`.
pub open spec fn mutable_of(s: StateView) -> MutView {
    MutView { part_id: s.part_id, parent: s.statesum, elts: s.elts, elt_sum: s.elt_sum }
}

/// The state without parents that holds the given elements: what a snapshot
/// of any state with these elements is read back as.
pub open spec fn rooted(part_id: PartId, elts: Seq<(u64, Seq<u8>)>) -> StateView {
    state_of(part_id, elts, Seq::empty(), blank_meta())
}

impl StateView {
    /// The invariant of a state: its elements are in increasing order of
    /// identifier and belong to its partition; the element sum is the
    /// exclusive or of the checksums of the elements; the state sum is the
    /// exclusive or of the element sum and of the metadata sum; there are at
    /// most 255 parents, and the metadata can be written.
    #[verifier::opaque]
    pub open spec fn wf(self) -> bool {
        &&& self.part_id.wf()
        &&& increasing(self.elts)
        &&& owned_by(self.elts, self.part_id)
        &&& self.elt_sum == xor_sums(self.elts)
        &&& self.meta_sum == state_meta_sum(self.parents, self.meta)
        &&& self.statesum == self.elt_sum.xored(self.meta_sum)
        &&& self.parents.len() <= MAX_PARENTS
        &&& self.meta.wf()
    }

    /// Whether the parents are distinct and the state is none of them.
    pub open spec fn acyclic(self) -> bool {
        distinct(self.parents) && !self.parents.contains(self.statesum)
    }
}

impl MutView {
    /// The invariant of a state under construction: as for a state, without
    /// parents and metadata.
    #[verifier::opaque]
    pub open spec fn wf(self) -> bool {
        &&& self.part_id.wf()
        &&& increasing(self.elts)
        &&& owned_by(self.elts, self.part_id)
        &&& self.elt_sum == xor_sums(self.elts)
    }
}

/// The sum of a state is the exclusive or of the checksums of its elements
/// and of the checksum of its metadata.
pub proof fn law_checksum_composition(s: StateView)
    requires
        s.wf(),
    ensures
        s.statesum == xor_sums(s.elts).xored(s.meta_sum),
{
    reveal(StateView::wf);
}

/// The place of the first identifier of the partition `base`, from number
/// `k` on, that has no entry.
pub open spec fn first_free(s: Seq<(u64, Seq<u8>)>, base: u64, k: nat) -> nat
    decreases s.len() - k,
{
    if k < s.len() && s[k as int].0 == base + k {
        first_free(s, base, k + 1)
    } else {
        k
    }
}

/// A state of a partition: immutable once made.
#[derive(Clone, Debug, PartialEq, Eq)]
pub struct PartState {
    pub part_id: PartId,
    pub parents: Vec<Sum>,
    pub elts: IdMap<Element>,
    pub meta: CommitMeta,
    pub elt_sum: Sum,
    pub meta_sum: Sum,
    pub statesum: Sum,
}

/// A state under construction: made from a state, changed element by
/// element, and made into a state again.
#[derive(Clone, Debug, PartialEq, Eq)]
pub struct MutPartState {
    pub part_id: PartId,
    pub parent: Sum,
    pub elts: IdMap<Element>,
    pub elt_sum: Sum,
}

impl View for PartState {
    type V = StateView;

    open spec fn view(&self) -> StateView {
        StateView {
            part_id: self.part_id,
            parents: self.parents@,
            elts: elt_views(self.elts.entries()),
            meta: self.meta@,
            elt_sum: self.elt_sum,
            meta_sum: self.meta_sum,
            statesum: self.statesum,
        }
    }
}

impl View for MutPartState {
    type V = MutView;

    open spec fn view(&self) -> MutView {
        MutView {
            part_id: self.part_id,
            parent: self.parent,
            elts: elt_views(self.elts.entries()),
            elt_sum: self.elt_sum,
        }
    }
}

/// Copies a map of elements.
pub fn copy_elts(m: &IdMap<Element>) -> (r: IdMap<Element>)
    requires
        m.wf(),
    ensures
        r.wf(),
        elt_views(r.entries()) == elt_views(m.entries()),
{
    let mut r: IdMap<Element> = IdMap::new();
    let mut i: usize = 0;
    assert(elt_views(r.entries()) =~= elt_views(m.entries()).subrange(0, 0));
    while i < m.len()
        invariant
            i <= m.entries().len(),
            m.wf(),
            r.wf(),
            r.entries().len() == i,
            forall|j: int| 0 <= j < i ==> (#[trigger] r.entries()[j]).0 == m.entries()[j].0,
            elt_views(r.entries()) == elt_views(m.entries()).subrange(0, i as int),
        decreases m.entries().len() - i,
    {
        let id = m.id_at(i);
        let e = m.value_at(i).duplicate();
        proof {
            if i > 0 {
                assert(r.entries().last().0 == m.entries()[i - 1].0);
                assert(m.entries()[i - 1].0 < m.entries()[i as int].0);
            }
        }
        r.push(id, e);
        i += 1;
        assert(elt_views(r.entries()) =~= elt_views(m.entries()).subrange(0, i as int));
    }
    assert(elt_views(m.entries()).subrange(0, i as int) =~= elt_views(m.entries()));
    r
}

/// Copies a list of checksums.
pub fn copy_sums(v: &Vec<Sum>) -> (r: Vec<Sum>)
    ensures
        r@ == v@,
{
    let mut r: Vec<Sum> = Vec::new();
    let mut i: usize = 0;
    while i < v.len()
        invariant
            i <= v.len(),
            r@ == v@.subrange(0, i as int),
        decreases v.len() - i,
    {
        r.push(v[i]);
        i += 1;
        assert(r@ =~= v@.subrange(0, i as int));
    }
    assert(v@.subrange(0, v.len() as int) =~= v@);
    r
}

impl PartState {
    /// The invariant: see `StateView::wf`.
    pub open spec fn wf(&self) -> bool {
        self.elts.wf() && self@.wf()
    }

    /// The blank state of a partition: no elements, no parents, blank
    /// metadata, and the zero checksum as its sum.
    pub fn new(part_id: PartId) -> (s: PartState)
        requires
            part_id.wf(),
        ensures
            s.wf(),
            s@ == rooted(part_id, Seq::empty()),
            s@.statesum == Sum::zero_sum(),
            s@.acyclic(),
    {
        let s = PartState {
            part_id,
            parents: Vec::new(),
            elts: IdMap::new(),
            meta: CommitMeta::blank(),
            elt_sum: Sum::zero(),
            meta_sum: Sum::zero(),
            statesum: Sum::zero(),
        };
        proof {
            reveal(StateView::wf);
            assert(s@.elts =~= Seq::empty());
            assert(s@.parents =~= Seq::empty());
            lemma_xor_laws(Sum::zero_sum(), Sum::zero_sum(), Sum::zero_sum());
        }
        s
    }

    /// Makes a state of a state under construction, with the given parents
    /// and metadata.
    pub fn from_mut(mstate: MutPartState, parents: Vec<Sum>, meta: CommitMeta) -> (s: PartState)
        requires
            mstate.wf(),
            parents.len() <= MAX_PARENTS,
            meta.wf(),
        ensures
            s.wf(),
            s@ == state_of(mstate@.part_id, mstate@.elts, parents@, meta@),
    {
        proof {
            reveal(StateView::wf);
            reveal(MutView::wf);
        }
        let meta_sum = if parents.len() == 0 {
            Sum::zero()
        } else {
            meta.sum()
        };
        let statesum = mstate.elt_sum.xor(&meta_sum);
        PartState {
            part_id: mstate.part_id,
            parents,
            elts: mstate.elts,
            meta,
            elt_sum: mstate.elt_sum,
            meta_sum,
            statesum,
        }
    }

    /// A state under construction that starts from this state.
    pub fn clone_mut(&self) -> (m: MutPartState)
        requires
            self.wf(),
        ensures
            m.wf(),
            m@ == mutable_of(self@),
    {
        proof {
            reveal(StateView::wf);
            reveal(MutView::wf);
        }
        MutPartState {
            part_id: self.part_id,
            parent: self.statesum,
            elts: copy_elts(&self.elts),
            elt_sum: self.elt_sum,
        }
    }

    /// A copy of the state.
    pub fn duplicate(&self) -> (s: PartState)
        requires
            self.wf(),
        ensures
            s.wf(),
            s@ == self@,
    {
        proof {
            reveal(StateView::wf);
        }
        PartState {
            part_id: self.part_id,
            parents: copy_sums(&self.parents),
            elts: copy_elts(&self.elts),
            meta: self.meta.duplicate(),
            elt_sum: self.elt_sum,
            meta_sum: self.meta_sum,
            statesum: self.statesum,
        }
    }

    /// The partition that the state belongs to.
    pub fn part_id(&self) -> (p: PartId)
        ensures
            p == self@.part_id,
    {
        self.part_id
    }

    /// The sum that identifies the state.
    pub fn statesum(&self) -> (s: &Sum)
        ensures
            *s == self@.statesum,
    {
        &self.statesum
    }

    /// The sums of the parents.
    pub fn parents(&self) -> (p: &Vec<Sum>)
        ensures
            p@ == self@.parents,
    {
        &self.parents
    }

    /// The metadata.
    pub fn meta(&self) -> (m: &CommitMeta)
        ensures
            m@ == self@.meta,
    {
        &self.meta
    }

    /// The checksum of the metadata.
    pub fn metasum(&self) -> (s: &Sum)
        ensures
            *s == self@.meta_sum,
    {
        &self.meta_sum
    }

    /// The exclusive or of the checksums of the elements.
    pub fn elt_sum(&self) -> (s: &Sum)
        ensures
            *s == self@.elt_sum,
    {
        &self.elt_sum
    }

    /// The elements, in increasing order of identifier.
    pub fn elt_map(&self) -> (m: &IdMap<Element>)
        ensures
            elt_views(m.entries()) == self@.elts,
            m.wf() == self.elts.wf(),
    {
        &self.elts
    }

    /// Number of elements.
    pub fn num_avail(&self) -> (n: usize)
        ensures
            n == self@.elts.len(),
    {
        self.elts.len()
    }

    /// Whether the state holds any element.
    pub fn any_avail(&self) -> (r: bool)
        ensures
            r == (self@.elts.len() > 0),
    {
        self.elts.len() > 0
    }

    /// Whether the state holds the element `id`.
    pub fn is_avail(&self, id: EltId) -> (r: bool)
        requires
            self.wf(),
        ensures
            r == holds(self@.elts, id.id),
    {
        proof {
            lemma_views_rank(self.elts.entries(), id.id);
        }
        self.elts.contains(id.id)
    }

    /// The element `id`; an error where the state does not hold it.
    pub fn get(&self, id: EltId) -> (r: Result<&Element, Error>)
        requires
            self.wf(),
        ensures
            match get(self@.elts, id.id) {
                Some(d) => r matches Ok(e) && e@ == d,
                None => r matches Err(x) && x == Error::NoEltFound("element not found"),
            },
    {
        proof {
            lemma_views_rank(self.elts.entries(), id.id);
        }
        match self.elts.get(id.id) {
            Some(e) => Ok(e),
            None => Err(Error::NoEltFound("element not found")),
        }
    }
}

impl MutPartState {
    /// The invariant: see `MutView::wf`.
    pub open spec fn wf(&self) -> bool {
        self.elts.wf() && self@.wf()
    }

    /// The partition that the state belongs to.
    pub fn part_id(&self) -> (p: PartId)
        ensures
            p == self@.part_id,
    {
        self.part_id
    }

    /// The sum of the state that this one was made from.
    pub fn parent(&self) -> (s: &Sum)
        ensures
            *s == self@.parent,
    {
        &self.parent
    }

    /// The exclusive or of the checksums of the elements.
    pub fn elt_sum(&self) -> (s: &Sum)
        ensures
            *s == self@.elt_sum,
    {
        &self.elt_sum
    }

    /// The elements, in increasing order of identifier.
    pub fn elt_map(&self) -> (m: &IdMap<Element>)
        ensures
            elt_views(m.entries()) == self@.elts,
            m.wf() == self.elts.wf(),
    {
        &self.elts
    }

    /// Number of elements.
    pub fn num_avail(&self) -> (n: usize)
        ensures
            n == self@.elts.len(),
    {
        self.elts.len()
    }

    /// Whether the state holds any element.
    pub fn any_avail(&self) -> (r: bool)
        ensures
            r == (self@.elts.len() > 0),
    {
        self.elts.len() > 0
    }

    /// Whether the state holds the element `id`.
    pub fn is_avail(&self, id: EltId) -> (r: bool)
        requires
            self.wf(),
        ensures
            r == holds(self@.elts, id.id),
    {
        proof {
            lemma_views_rank(self.elts.entries(), id.id);
        }
        self.elts.contains(id.id)
    }

    /// The element `id`; an error where the state does not hold it.
    pub fn get(&self, id: EltId) -> (r: Result<&Element, Error>)
        requires
            self.wf(),
        ensures
            match get(self@.elts, id.id) {
                Some(d) => r matches Ok(e) && e@ == d,
                None => r matches Err(x) && x == Error::NoEltFound("element not found"),
            },
    {
        proof {
            lemma_views_rank(self.elts.entries(), id.id);
        }
        match self.elts.get(id.id) {
            Some(e) => Ok(e),
            None => Err(Error::NoEltFound("element not found")),
        }
    }

    /// Adds `elt` under the identifier `id`. Fails where `id` belongs to
    /// another partition or is in use.
    pub fn insert_with_id(&mut self, id: EltId, elt: Element) -> (r: Result<(), Error>)
        requires
            old(self).wf(),
        ensures
            final(self).wf(),
            final(self)@.part_id == old(self)@.part_id,
            final(self)@.parent == old(self)@.parent,
            r is Ok <==> part_bits(id.id) == old(self)@.part_id.id && !holds(old(self)@.elts, id.id),
            r is Ok ==> final(self)@.elts == put(old(self)@.elts, id.id, elt@),
            r is Ok ==> final(self)@.elt_sum == old(self)@.elt_sum.xored(
                elt_sum_of(id.id, elt@),
            ),
            r is Err ==> final(self)@ == old(self)@,
            r matches Err(e) ==> e == if part_bits(id.id) == old(self)@.part_id.id {
                Error::arg_spec("element identifier is in use")
            } else {
                Error::arg_spec("element identifier belongs to another partition")
            },
    {
        proof {
            reveal(MutView::wf);
            lemma_views_rank(self.elts.entries(), id.id);
            lemma_views_put(self.elts.entries(), id.id, elt);
            lemma_views(self.elts.entries());
            lemma_xor_put(self@.elts, id.id, elt@);
            lemma_owned(self@.elts, self@.part_id, id.id, elt@);
            lemma_put(self@.elts, id.id, elt@);
        }
        if !self.part_id.owns(id) {
            return Err(Error::arg("element identifier belongs to another partition"));
        }
        if self.elts.contains(id.id) {
            return Err(Error::arg("element identifier is in use"));
        }
        let sum = elt.sum(id);
        self.elts.insert(id.id, elt);
        self.elt_sum = self.elt_sum.xor(&sum);
        Ok(())
    }

    /// Replaces the payload of the element `id` and returns the element as
    /// it was. Fails where the state does not hold `id`.
    pub fn replace(&mut self, id: EltId, elt: Element) -> (r: Result<Element, Error>)
        requires
            old(self).wf(),
        ensures
            final(self).wf(),
            final(self)@.part_id == old(self)@.part_id,
            final(self)@.parent == old(self)@.parent,
            match get(old(self)@.elts, id.id) {
                Some(was) => r matches Ok(e) && e@ == was && final(self)@.elts == put(
                    old(self)@.elts,
                    id.id,
                    elt@,
                ) && final(self)@.elt_sum == old(self)@.elt_sum.xored(
                    elt_sum_of(id.id, was),
                ).xored(elt_sum_of(id.id, elt@)),
                None => r matches Err(x) && x == Error::NoEltFound("element not found")
                    && final(self)@ == old(self)@,
            },
    {
        proof {
            reveal(MutView::wf);
            lemma_views_rank(self.elts.entries(), id.id);
            lemma_views_put(self.elts.entries(), id.id, elt);
            lemma_views(self.elts.entries());
            lemma_xor_put(self@.elts, id.id, elt@);
            lemma_put(self@.elts, id.id, elt@);
        }
        if !self.elts.contains(id.id) {
            return Err(Error::NoEltFound("element not found"));
        }
        proof {
            lemma_rank(self@.elts, id.id);
            assert(part_bits(self@.elts[rank(self@.elts, id.id)].0) == self@.part_id.id);
            lemma_owned(self@.elts, self@.part_id, id.id, elt@);
        }
        let sum = elt.sum(id);
        match self.elts.insert(id.id, elt) {
            Some(was) => {
                let was_sum = was.sum(id);
                self.elt_sum = self.elt_sum.xor(&was_sum).xor(&sum);
                Ok(was)
            },
            None => Err(Error::NoEltFound("element not found")),
        }
    }

    /// Removes the element `id` and returns it. Fails where the state does
    /// not hold `id`.
    pub fn remove(&mut self, id: EltId) -> (r: Result<Element, Error>)
        requires
            old(self).wf(),
        ensures
            final(self).wf(),
            final(self)@.part_id == old(self)@.part_id,
            final(self)@.parent == old(self)@.parent,
            match get(old(self)@.elts, id.id) {
                Some(was) => r matches Ok(e) && e@ == was && final(self)@.elts == del(
                    old(self)@.elts,
                    id.id,
                ) && final(self)@.elt_sum == old(self)@.elt_sum.xored(elt_sum_of(id.id, was)),
                None => r matches Err(x) && x == Error::NoEltFound("element not found")
                    && final(self)@ == old(self)@,
            },
    {
        proof {
            reveal(MutView::wf);
            lemma_views_rank(self.elts.entries(), id.id);
            lemma_views_del(self.elts.entries(), id.id);
            lemma_views(self.elts.entries());
            lemma_xor_del(self@.elts, id.id);
            lemma_del(self@.elts, id.id);
            lemma_owned(self@.elts, self@.part_id, id.id, Seq::empty());
        }
        match self.elts.remove(id.id) {
            Some(was) => {
                let was_sum = was.sum(id);
                self.elt_sum = self.elt_sum.xor(&was_sum);
                Ok(was)
            },
            None => Err(Error::NoEltFound("element not found")),
        }
    }
}

/// In an increasing sequence of elements of one partition, the element at
/// place `k` has number `k` at least, and all elements before the first
/// free identifier have their place as their number.
pub proof fn lemma_first_free(s: Seq<(u64, Seq<u8>)>, part: PartId, k: nat)
    requires
        increasing(s),
        owned_by(s, part),
        part.wf(),
        k <= s.len(),
        forall|i: int| 0 <= i < k ==> (#[trigger] s[i]).0 == part.id + i,
    ensures
        first_free(s, part.id, k) <= s.len(),
        first_free(s, part.id, k) <= ELTS_PER_PART,
        forall|i: int|
            0 <= i < first_free(s, part.id, k) ==> (#[trigger] s[i]).0 == part.id + i,
        first_free(s, part.id, k) < s.len() ==> s[first_free(s, part.id, k) as int].0 > part.id
            + first_free(s, part.id, k),
    decreases s.len() - k,
{
    if k < s.len() {
        assert(part_bits(s[k as int].0) == part.id);
        if k > 0 {
            assert(s[k - 1].0 < s[k as int].0);
        }
        if s[k as int].0 == part.id + k {
            assert forall|i: int| 0 <= i < k + 1 implies (#[trigger] s[i]).0 == part.id + i by {}
            lemma_first_free(s, part, k + 1);
        }
    } else if k > 0 {
        assert(part_bits(s[k - 1].0) == part.id);
    }
}

impl MutPartState {
    /// Adds `elt` under the identifier of this partition with the smallest
    /// number that is free, and gives the identifier. Fails where no
    /// identifier is free.
    pub fn insert(&mut self, elt: Element) -> (r: Result<EltId, Error>)
        requires
            old(self).wf(),
        ensures
            final(self).wf(),
            final(self)@.part_id == old(self)@.part_id,
            final(self)@.parent == old(self)@.parent,
            ({
                let k = first_free(old(self)@.elts, old(self)@.part_id.id, 0);
                if k < ELTS_PER_PART {
                    &&& r matches Ok(id)
                    &&& id.id == old(self)@.part_id.id + k
                    &&& !holds(old(self)@.elts, id.id)
                    &&& final(self)@.elts == put(old(self)@.elts, id.id, elt@)
                    &&& final(self)@.elt_sum == old(self)@.elt_sum.xored(elt_sum_of(id.id, elt@))
                } else {
                    &&& r matches Err(e)
                    &&& e == Error::Other("no free element identifier")
                    &&& final(self)@ == old(self)@
                }
            }),
    {
        let base = self.part_id.id;
        let mut k: usize = 0;
        proof {
            reveal(MutView::wf);
            lemma_views(self.elts.entries());
            lemma_first_free(self@.elts, self@.part_id, 0);
        }
        while k < self.elts.len() && k < 0x100_0000 && self.elts.id_at(k) == base + k as u64
            invariant
                k <= self.elts.entries().len(),
                k <= ELTS_PER_PART,
                self.wf(),
                self@ == old(self)@,
                base == self@.part_id.id,
                self@.part_id.wf(),
                self@.elts.len() == self.elts.entries().len(),
                forall|i: int|
                    0 <= i < self.elts.entries().len() ==> (#[trigger] self@.elts[i]).0
                        == self.elts.entries()[i].0,
                first_free(self@.elts, base, 0) == first_free(self@.elts, base, k as nat),
            decreases self.elts.entries().len() - k,
        {
            proof {
                assert(self@.elts[k as int].0 == base + k);
            }
            k += 1;
        }
        proof {
            lemma_views(self.elts.entries());
            lemma_first_free(self@.elts, self@.part_id, 0);
            let f = first_free(self@.elts, base, 0);
            if k < self.elts.entries().len() && k < ELTS_PER_PART {
                assert(self@.elts[k as int].0 == self.elts.entries()[k as int].0);
                assert(f == k);
            } else if k < self.elts.entries().len() {
                assert(f >= k);
            } else {
                assert(f == k);
            }
        }
        if k >= 0x100_0000 {
            return Err(Error::Other("no free element identifier"));
        }
        let id = EltId { id: base + k as u64 };
        proof {
            let s = self@.elts;
            assert forall|i: int| 0 <= i < k implies (#[trigger] s[i]).0 < id.id by {}
            assert forall|i: int| k <= i < s.len() implies (#[trigger] s[i]).0 >= id.id by {
                if i > k {
                    assert(s[k as int].0 < s[i].0);
                }
            }
            crate::idmap::lemma_rank_is(s, id.id, k as int);
            assert(!holds(s, id.id));
            assert(part_bits(id.id) == base);
        }
        match self.insert_with_id(id, elt) {
            Ok(()) => Ok(id),
            Err(e) => {
                assert(false);
                Err(e)
            },
        }
    }
}

} // verus!
