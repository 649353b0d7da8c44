//! Commits: the changes that lead from one state of a partition to the next.

use vstd::prelude::*;
use vstd::utf8::encode_utf8;
use crate::elt::Element;
use crate::ids::EltId;
use crate::idmap::IdMap;
use crate::idmap::increasing;
use crate::sum::Sum;
use crate::sum::sum_of;
use crate::wire::be32;
use crate::wire::be64_signed;
use crate::wire::append;
use crate::wire::append_u32;
use crate::wire::append_i64;

verus! {

/// The largest number of parents that a commit can have.
pub const MAX_PARENTS: usize = 255;

/// The largest number of bytes of extra metadata.
pub const MAX_EXTRA: usize = 0xFFFF_FFFF;

/// Extra metadata of a commit: nothing, or a text.
#[derive(Clone, Debug, PartialEq, Eq)]
pub enum ExtraMeta {
    Empty,
    Text(String),
}

/// Metadata of a commit: its number, the time it was made in seconds since
/// the epoch, and the extra metadata.
#[derive(Clone, Debug, PartialEq, Eq)]
pub struct CommitMeta {
    pub number: u32,
    pub timestamp: i64,
    pub extra: ExtraMeta,
}

/// What metadata hold: the text of the extra metadata as characters.
pub struct MetaView {
    pub number: u32,
    pub timestamp: i64,
    pub extra: Option<Seq<char>>,
}

/// The change of one element.
#[derive(Clone, Debug, PartialEq, Eq)]
pub enum EltChange {
    /// The element is removed.
    Deletion,
    /// The element is new.
    Insertion(Element),
    /// The element's payload is replaced.
    Replacement(Element),
    /// The element has left the partition and has the given identifier now.
    MovedOut(EltId),
    /// An element that has left already has moved again, to the given
    /// identifier.
    Moved(EltId),
}

/// What a change holds: payloads as byte strings.
pub enum ChangeView {
    Deletion,
    Insertion(Seq<u8>),
    Replacement(Seq<u8>),
    MovedOut(u64),
    Moved(u64),
}

/// A commit: the sum of the state it leads to, the sums of the states it
/// comes from, the changes by element, and metadata.
#[derive(Clone, Debug, PartialEq, Eq)]
pub struct Commit {
    pub statesum: Sum,
    pub parents: Vec<Sum>,
    pub changes: IdMap<EltChange>,
    pub meta: CommitMeta,
}

/// What a commit holds.
pub struct CommitView {
    pub statesum: Sum,
    pub parents: Seq<Sum>,
    pub changes: Seq<(u64, ChangeView)>,
    pub meta: MetaView,
}

/// The views of the entries of a map of changes.
pub open spec fn change_views(s: Seq<(u64, EltChange)>) -> Seq<(u64, ChangeView)> {
    crate::idmap::entry_views(s)
}

/// The bytes of the extra metadata: the text in UTF-8.
pub open spec fn extra_bytes(extra: Option<Seq<char>>) -> Seq<u8> {
    match extra {
        Some(text) => encode_utf8(text),
        None => Seq::empty(),
    }
}

/// The bytes that the checksum of metadata covers: the number, the time, a
/// byte that tells whether there is a text, and the text.
pub open spec fn meta_bytes(m: MetaView) -> Seq<u8> {
    be32(m.number) + be64_signed(m.timestamp) + seq![
        if m.extra is Some {
            1u8
        } else {
            0u8
        },
    ] + extra_bytes(m.extra)
}

/// The checksum of metadata.
pub open spec fn meta_sum_of(m: MetaView) -> Sum {
    sum_of(meta_bytes(m))
}

impl View for ExtraMeta {
    type V = Option<Seq<char>>;

    open spec fn view(&self) -> Option<Seq<char>> {
        match self {
            ExtraMeta::Empty => None,
            ExtraMeta::Text(t) => Some(t@),
        }
    }
}

impl View for CommitMeta {
    type V = MetaView;

    open spec fn view(&self) -> MetaView {
        MetaView { number: self.number, timestamp: self.timestamp, extra: self.extra@ }
    }
}

impl View for EltChange {
    type V = ChangeView;

    open spec fn view(&self) -> ChangeView {
        match self {
            EltChange::Deletion => ChangeView::Deletion,
            EltChange::Insertion(e) => ChangeView::Insertion(e@),
            EltChange::Replacement(e) => ChangeView::Replacement(e@),
            EltChange::MovedOut(id) => ChangeView::MovedOut(id.id),
            EltChange::Moved(id) => ChangeView::Moved(id.id),
        }
    }
}

impl View for Commit {
    type V = CommitView;

    open spec fn view(&self) -> CommitView {
        CommitView {
            statesum: self.statesum,
            parents: self.parents@,
            changes: change_views(self.changes.entries()),
            meta: self.meta@,
        }
    }
}

impl MetaView {
    /// Metadata that can be written: the text has at most `MAX_EXTRA` bytes.
    pub open spec fn wf(self) -> bool {
        extra_bytes(self.extra).len() <= MAX_EXTRA
    }
}

impl ChangeView {
    /// The payload that the change brings; empty where it brings none.
    pub open spec fn payload(self) -> Seq<u8> {
        match self {
            ChangeView::Insertion(d) => d,
            ChangeView::Replacement(d) => d,
            _ => Seq::empty(),
        }
    }

    /// A change that can be written: the length of its payload fits in 64 bits.
    pub open spec fn wf(self) -> bool {
        self.payload().len() <= u64::MAX
    }
}

impl CommitView {
    /// A commit that can be written: from 1 to 255 parents, changes in
    /// increasing order of identifier whose number and payloads fit in 64
    /// bits, and metadata that can be written.
    #[verifier::opaque]
    pub open spec fn wf(self) -> bool {
        &&& 1 <= self.parents.len() <= MAX_PARENTS
        &&& increasing(self.changes)
        &&& self.changes.len() <= u64::MAX
        &&& forall|i: int| 0 <= i < self.changes.len() ==> (#[trigger] self.changes[i]).1.wf()
        &&& self.meta.wf()
    }
}

impl ExtraMeta {
    /// A copy of the extra metadata.
    pub fn duplicate(&self) -> (r: ExtraMeta)
        ensures
            r@ == self@,
    {
        match self {
            ExtraMeta::Empty => ExtraMeta::Empty,
            ExtraMeta::Text(t) => ExtraMeta::Text(t.clone()),
        }
    }
}

impl CommitMeta {
    /// The invariant: see `MetaView::wf`.
    pub open spec fn wf(&self) -> bool {
        self@.wf()
    }

    /// Metadata with the given number, time and extra metadata.
    pub fn new_explicit(number: u32, timestamp: i64, extra: ExtraMeta) -> (m: CommitMeta)
        ensures
            m@ == (MetaView { number, timestamp, extra: extra@ }),
    {
        CommitMeta { number, timestamp, extra }
    }

    /// The metadata of a state that no commit led to: number 0, time 0, no
    /// extra metadata.
    pub fn blank() -> (m: CommitMeta)
        ensures
            m@ == blank_meta(),
            m.wf(),
    {
        CommitMeta { number: 0, timestamp: 0, extra: ExtraMeta::Empty }
    }

    /// The commit's number.
    pub fn number(&self) -> (n: u32)
        ensures
            n == self@.number,
    {
        self.number
    }

    /// The time of the commit, in seconds since the epoch.
    pub fn timestamp(&self) -> (t: i64)
        ensures
            t == self@.timestamp,
    {
        self.timestamp
    }

    /// The extra metadata.
    pub fn extra(&self) -> (x: &ExtraMeta)
        ensures
            x@ == self@.extra,
    {
        &self.extra
    }

    /// A copy of the metadata.
    pub fn duplicate(&self) -> (m: CommitMeta)
        ensures
            m@ == self@,
    {
        CommitMeta {
            number: self.number,
            timestamp: self.timestamp,
            extra: self.extra.duplicate(),
        }
    }

    /// The checksum of the metadata.
    pub fn sum(&self) -> (s: Sum)
        ensures
            s == meta_sum_of(self@),
    {
        let mut buf: Vec<u8> = Vec::new();
        append_u32(&mut buf, self.number);
        append_i64(&mut buf, self.timestamp);
        match &self.extra {
            ExtraMeta::Empty => {
                buf.push(0u8);
            },
            ExtraMeta::Text(t) => {
                buf.push(1u8);
                append(&mut buf, t.as_str().as_bytes());
            },
        }
        assert(buf@ =~= meta_bytes(self@));
        Sum::calculate(buf.as_slice())
    }
}

/// The metadata of a state that no commit led to.
pub open spec fn blank_meta() -> MetaView {
    MetaView { number: 0, timestamp: 0, extra: None }
}

impl EltChange {
    /// The change that removes an element.
    pub fn deletion() -> (c: EltChange)
        ensures
            c@ == ChangeView::Deletion,
    {
        EltChange::Deletion
    }

    /// The change that adds `elt`.
    pub fn insertion(elt: Element) -> (c: EltChange)
        ensures
            c@ == ChangeView::Insertion(elt@),
    {
        EltChange::Insertion(elt)
    }

    /// The change that replaces an element's payload by that of `elt`.
    pub fn replacement(elt: Element) -> (c: EltChange)
        ensures
            c@ == ChangeView::Replacement(elt@),
    {
        EltChange::Replacement(elt)
    }

    /// The change that records a move to `new_id`: out of the partition
    /// where `out` holds, of an element that has left already where not.
    pub fn moved(new_id: EltId, out: bool) -> (c: EltChange)
        ensures
            c@ == if out {
                ChangeView::MovedOut(new_id.id)
            } else {
                ChangeView::Moved(new_id.id)
            },
    {
        if out {
            EltChange::MovedOut(new_id)
        } else {
            EltChange::Moved(new_id)
        }
    }

    /// The element that the change brings, if it brings one.
    pub fn element(&self) -> (r: Option<&Element>)
        ensures
            r matches Some(e) ==> (self@ == ChangeView::Insertion(e@) || self@
                == ChangeView::Replacement(e@)),
            r is None ==> !(self@ is Insertion) && !(self@ is Replacement),
    {
        match self {
            EltChange::Insertion(e) => Some(e),
            EltChange::Replacement(e) => Some(e),
            _ => None,
        }
    }

    /// The identifier that the element moved to, if the change is a move.
    pub fn moved_id(&self) -> (r: Option<EltId>)
        ensures
            r matches Some(id) ==> (self@ == ChangeView::MovedOut(id.id) || self@
                == ChangeView::Moved(id.id)),
            r is None ==> !(self@ is MovedOut) && !(self@ is Moved),
    {
        match self {
            EltChange::MovedOut(id) => Some(*id),
            EltChange::Moved(id) => Some(*id),
            _ => None,
        }
    }

    /// A copy of the change.
    pub fn duplicate(&self) -> (c: EltChange)
        ensures
            c@ == self@,
    {
        match self {
            EltChange::Deletion => EltChange::Deletion,
            EltChange::Insertion(e) => EltChange::Insertion(e.duplicate()),
            EltChange::Replacement(e) => EltChange::Replacement(e.duplicate()),
            EltChange::MovedOut(id) => EltChange::MovedOut(*id),
            EltChange::Moved(id) => EltChange::Moved(*id),
        }
    }
}

impl Commit {
    /// The invariant: see `CommitView::wf`.
    pub open spec fn wf(&self) -> bool {
        self.changes.wf() && self@.wf()
    }

    /// The commit with the given parts.
    pub fn new_explicit(
        statesum: Sum,
        parents: Vec<Sum>,
        changes: IdMap<EltChange>,
        meta: CommitMeta,
    ) -> (c: Commit)
        requires
            1 <= parents.len() <= MAX_PARENTS,
            changes.wf(),
            meta.wf(),
        ensures
            c.wf(),
            c@.statesum == statesum,
            c@.parents == parents@,
            c@.changes == change_views(changes.entries()),
            c@.meta == meta@,
    {
        let c = Commit { statesum, parents, changes, meta };
        proof {
            reveal(CommitView::wf);
            c.changes.lemma_bounded();
            lemma_change_views_increasing(c.changes.entries());
        }
        c
    }

    /// The sum of the state that the commit leads to.
    pub fn statesum(&self) -> (s: &Sum)
        ensures
            *s == self@.statesum,
    {
        &self.statesum
    }

    /// The sums of the states that the commit comes from.
    pub fn parents(&self) -> (p: &Vec<Sum>)
        ensures
            p@ == self@.parents,
    {
        &self.parents
    }

    /// The first parent: the state that the changes apply to.
    pub fn first_parent(&self) -> (p: &Sum)
        requires
            self.wf(),
        ensures
            *p == self@.parents[0],
    {
        proof {
            reveal(CommitView::wf);
        }
        &self.parents[0]
    }

    /// The metadata.
    pub fn meta(&self) -> (m: &CommitMeta)
        ensures
            m@ == self@.meta,
    {
        &self.meta
    }

    /// Number of changes.
    pub fn num_changes(&self) -> (n: usize)
        ensures
            n == self@.changes.len(),
    {
        self.changes.len()
    }

    /// The changes, in increasing order of element identifier.
    pub fn changes(&self) -> (c: &IdMap<EltChange>)
        ensures
            change_views(c.entries()) == self@.changes,
            c.wf() == self.changes.wf(),
    {
        &self.changes
    }
}

/// The views of increasing entries are increasing, and the views of changes
/// that are held in memory can be written.
pub proof fn lemma_change_views_increasing(s: Seq<(u64, EltChange)>)
    ensures
        change_views(s).len() == s.len(),
        increasing(s) ==> increasing(change_views(s)),
        forall|i: int| 0 <= i < s.len() ==> (#[trigger] change_views(s)[i]) == (s[i].0, s[i].1@),
        forall|i: int| 0 <= i < s.len() ==> (#[trigger] change_views(s)[i]).1.wf(),
{
    assert forall|i: int| 0 <= i < s.len() implies (#[trigger] change_views(s)[i]).1.wf() by {
        match s[i].1 {
            EltChange::Insertion(e) => {
                assert(e.data.len() <= usize::MAX);
            },
            EltChange::Replacement(e) => {
                assert(e.data.len() <= usize::MAX);
            },
            _ => {},
        }
    }
}

/// Mapping an identifier to a change and taking views is taking views and
/// mapping the identifier to the view of the change.
pub proof fn lemma_change_views_put(s: Seq<(u64, EltChange)>, id: u64, c: EltChange)
    ensures
        change_views(crate::idmap::put(s, id, c)) == crate::idmap::put(change_views(s), id, c@),
{
    crate::idmap::lemma_views_put(s, id, c);
}

/// The views of commits.
pub open spec fn commit_views(s: Seq<Commit>) -> Seq<CommitView> {
    s.map_values(|c: Commit| c@)
}

} // verus!
