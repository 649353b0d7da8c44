//! The partition: a set of elements small enough to be held in memory, with
//! the states that it went through.
//!
//! A partition is not loaded, ready for use (it has one tip) or in need of a
//! merge (it has several tips).

use vstd::prelude::*;
use std::collections::VecDeque;
use hashindexed::HashIndexed;
use crate::commit::Commit;
use crate::commit::CommitView;
use crate::commit::ExtraMeta;
use crate::commit::commit_views;
use crate::commit::extra_bytes;
use crate::commit::MAX_EXTRA;
use crate::detail::asking::Asked;
use crate::detail::asking::Call;
use crate::detail::asking::found;
use crate::detail::graph::lemma_tips_after;
use crate::detail::graph::states_after;
use crate::detail::graph::tips_after;
use crate::detail::graph::without;
use crate::detail::index::SumKey;
use crate::detail::index::index_clear;
use crate::detail::index::index_contains;
use crate::detail::index::index_get;
use crate::detail::index::index_insert;
use crate::detail::index::index_len;
use crate::detail::index::index_new;
use crate::detail::index::index_states;
use crate::error::Error;
use crate::state::MutView;
use crate::error::MatchError;
use crate::detail::index::index_sums;
use crate::sum::has_prefix;
use crate::sum::hex_chars;
use crate::detail::ancestry::ancestors_of;
use crate::detail::ancestry::common_ancestor;
use crate::detail::ancestry::first_shared;
use crate::detail::ancestry::found_from;
use crate::detail::ancestry::is_ancestor;
use crate::detail::ancestry::first_in_walk;
use crate::detail::ancestry::is_common;
use crate::detail::ancestry::is_latest;
use crate::detail::ancestry::lined;
use crate::detail::ancestry::no_cycle;
use crate::detail::ancestry::single_parent;
use crate::detail::replay::all_wf;
use crate::readwrite::commitlog::read_commits;
use crate::readwrite::commitlog::parse_log;
use crate::readwrite::header::FileHeader;
use crate::readwrite::header::HeaderView;
use crate::readwrite::header::UserView;
use crate::readwrite::header::header_bytes;
use crate::readwrite::header::user_views;
use crate::readwrite::snapshot::snapshot_bytes;
use crate::readwrite::header::parse_header;
use crate::readwrite::snapshot::parse_snapshot;
use crate::readwrite::header::FileType;
use crate::readwrite::header::UserData;
use crate::readwrite::header::name_ok;
use crate::readwrite::header::read_head;
use crate::readwrite::header::validate_repo_name;
use crate::readwrite::header::write_head;
use crate::readwrite::snapshot::read_snapshot;
use crate::readwrite::snapshot::write_snapshot;
use vstd::string::StringSliceAdditionalSpecFns;
use vstd::utf8::encode_utf8;
use crate::error::PatchOp;
use crate::error::TipError;
use crate::ids::PartId;
use crate::patch::applied;
use crate::patch::change_of;
use crate::patch::commit_of;
use crate::patch::sums_contain;
use crate::state::MutPartState;
use crate::state::PartState;
use crate::state::StateView;
use crate::state::copy_sums;
use crate::state::state_of;
use crate::sum::Sum;

verus! {

/// Access to the files of a partition. The files are numbered: a snapshot
/// by its number, a commit log by the number of its snapshot and its own.
pub trait PartIO {
    /// The identifier of the partition.
    fn part_id(&self) -> PartId;

    /// One more than the number of the latest snapshot or log that was
    /// found.
    fn ss_len(&self) -> usize;

    /// One more than the number of the last log that was found for the
    /// snapshot `ss_num`.
    fn ss_cl_len(&self, ss_num: usize) -> usize;

    /// The data of the snapshot `ss_num`; nothing where there is none.
    fn read_ss(&self, ss_num: usize) -> Result<Option<Vec<u8>>, Error>;

    /// The data of the log `cl_num` of the snapshot `ss_num`; nothing where
    /// there is none.
    fn read_ss_cl(&self, ss_num: usize, cl_num: usize) -> Result<Option<Vec<u8>>, Error>;

    /// Makes the snapshot `ss_num` with the given data. Tells whether it was
    /// made: it is not where a snapshot with this number exists.
    fn new_ss(&mut self, ss_num: usize, data: &[u8]) -> Result<bool, Error>;

    /// Appends the given data to the log `cl_num` of the snapshot `ss_num`.
    /// Tells whether they were appended: they are not where there is no
    /// such log.
    fn append_ss_cl(&mut self, ss_num: usize, cl_num: usize, data: &[u8]) -> Result<bool, Error>;

    /// Makes the log `cl_num` of the snapshot `ss_num` with the given data.
    /// Tells whether it was made: it is not where a log with these numbers
    /// exists.
    fn new_ss_cl(&mut self, ss_num: usize, cl_num: usize, data: &[u8]) -> Result<bool, Error>;
}

/// Provides no files. What is written to it is kept until the next write
/// and then lost.
pub struct DummyPartIO {
    pub part_id: PartId,
    pub buf: Vec<u8>,
}

impl DummyPartIO {
    /// A provider for the partition `part_id`.
    pub fn new(part_id: PartId) -> (io: DummyPartIO)
        ensures
            io.part_id == part_id,
            io.buf@.len() == 0,
    {
        DummyPartIO { part_id: part_id, buf: Vec::new() }
    }

    fn keep(&mut self, data: &[u8])
        ensures
            final(self).buf@ == data@,
            final(self).part_id == old(self).part_id,
    {
        self.buf.clear();
        crate::wire::append(&mut self.buf, data);
        assert(self.buf@ =~= data@);
    }
}

impl PartIO for DummyPartIO {
    /// The identifier that the provider was made with.
    fn part_id(&self) -> (id: PartId)
        ensures
            id == self.part_id,
    {
        self.part_id
    }

    /// There is no snapshot and no log.
    fn ss_len(&self) -> (n: usize)
        ensures
            n == 0,
    {
        0
    }

    /// No snapshot has a log.
    fn ss_cl_len(&self, _ss_num: usize) -> (n: usize)
        ensures
            n == 0,
    {
        0
    }

    /// No snapshot is there.
    fn read_ss(&self, _ss_num: usize) -> (r: Result<Option<Vec<u8>>, Error>)
        ensures
            r == Ok::<Option<Vec<u8>>, Error>(None),
    {
        Ok(None)
    }

    /// No log is there.
    fn read_ss_cl(&self, _ss_num: usize, _cl_num: usize) -> (r: Result<Option<Vec<u8>>, Error>)
        ensures
            r == Ok::<Option<Vec<u8>>, Error>(None),
    {
        Ok(None)
    }

    /// Keeps the data in place of what was kept, whatever the number.
    fn new_ss(&mut self, _ss_num: usize, data: &[u8]) -> (r: Result<bool, Error>)
        ensures
            r == Ok::<bool, Error>(true),
            final(self).buf@ == data@,
            final(self).part_id == old(self).part_id,
    {
        self.keep(data);
        Ok(true)
    }

    /// Keeps the data in place of what was kept, whatever the numbers:
    /// nothing is appended to.
    fn append_ss_cl(&mut self, _ss_num: usize, _cl_num: usize, data: &[u8]) -> (r: Result<
        bool,
        Error,
    >)
        ensures
            r == Ok::<bool, Error>(true),
            final(self).buf@ == data@,
            final(self).part_id == old(self).part_id,
    {
        self.keep(data);
        Ok(true)
    }

    /// Keeps the data in place of what was kept, whatever the numbers.
    fn new_ss_cl(&mut self, _ss_num: usize, _cl_num: usize, data: &[u8]) -> (r: Result<
        bool,
        Error,
    >)
        ensures
            r == Ok::<bool, Error>(true),
            final(self).buf@ == data@,
            final(self).part_id == old(self).part_id,
    {
        self.keep(data);
        Ok(true)
    }
}

/// Decides when a snapshot is due: it counts the commits and the edits
/// since the last snapshot, and a snapshot is due when the commits, each
/// with the weight `weight`, and the edits together are above `limit`.
#[derive(Clone, Copy, Debug, PartialEq, Eq, Structural)]
pub struct SnapshotPolicy {
    pub commits: usize,
    pub edits: usize,
    pub weight: usize,
    pub limit: usize,
}

/// The sum of two counts, held at the largest count where it would pass it.
pub open spec fn capped(a: usize, b: usize) -> usize {
    if a + b > usize::MAX {
        usize::MAX
    } else {
        (a + b) as usize
    }
}

impl SnapshotPolicy {
    /// The policy of a partition with a fresh snapshot: a snapshot is due
    /// when five times the commits and the edits together are above 150.
    pub open spec fn fresh() -> SnapshotPolicy {
        SnapshotPolicy { commits: 0, edits: 0, weight: 5, limit: 150 }
    }

    /// The policy after `n` more commits.
    pub open spec fn with_commits(self, n: usize) -> SnapshotPolicy {
        SnapshotPolicy { commits: capped(self.commits, n), ..self }
    }

    /// The policy after `n` more edits.
    pub open spec fn with_edits(self, n: usize) -> SnapshotPolicy {
        SnapshotPolicy { edits: capped(self.edits, n), ..self }
    }

    /// The policy after a snapshot.
    pub open spec fn cleared(self) -> SnapshotPolicy {
        SnapshotPolicy { commits: 0, edits: 0, ..self }
    }

    /// Whether a snapshot is due.
    pub open spec fn due(self) -> bool {
        self.commits * self.weight + self.edits > self.limit
    }

    /// The policy of a partition with a fresh snapshot.
    pub fn new() -> (p: SnapshotPolicy)
        ensures
            p == SnapshotPolicy::fresh(),
            !p.due(),
    {
        assert(0 * 5 == 0);
        SnapshotPolicy { commits: 0, edits: 0, weight: 5, limit: 150 }
    }

    /// The policy of a partition with a fresh snapshot, with a weight and a
    /// limit of its own.
    pub fn with_limits(weight: usize, limit: usize) -> (p: SnapshotPolicy)
        ensures
            p == (SnapshotPolicy { commits: 0, edits: 0, weight, limit }),
            !p.due(),
    {
        assert(0 * weight == 0) by (nonlinear_arith);
        SnapshotPolicy { commits: 0, edits: 0, weight, limit }
    }

    /// Records that a snapshot is needed in any case: the commits are set to
    /// 1000.
    pub fn require(&mut self)
        ensures
            *final(self) == (SnapshotPolicy { commits: 1000, ..*old(self) }),
            1000 * old(self).weight > old(self).limit ==> final(self).due(),
    {
        self.commits = 1000;
    }

    /// Records `n_commits` more commits.
    pub fn add_commits(&mut self, n_commits: usize)
        ensures
            *final(self) == old(self).with_commits(n_commits),
    {
        self.commits = if n_commits > usize::MAX - self.commits {
            usize::MAX
        } else {
            self.commits + n_commits
        };
    }

    /// Records `n_edits` more edits.
    pub fn add_edits(&mut self, n_edits: usize)
        ensures
            *final(self) == old(self).with_edits(n_edits),
    {
        self.edits = if n_edits > usize::MAX - self.edits {
            usize::MAX
        } else {
            self.edits + n_edits
        };
    }

    /// Records that there is a fresh snapshot.
    pub fn reset(&mut self)
        ensures
            *final(self) == old(self).cleared(),
            !final(self).due(),
    {
        assert(0 * self.weight == 0) by (nonlinear_arith);
        self.commits = 0;
        self.edits = 0;
    }

    /// Whether a snapshot is due.
    pub fn snapshot(&self) -> (r: bool)
        ensures
            r == self.due(),
    {
        let (c, w) = (self.commits as u128, self.weight as u128);
        assert(c * w <= 0xFFFF_FFFF_FFFF_FFFF * 0xFFFF_FFFF_FFFF_FFFF) by (nonlinear_arith)
            requires
                c <= 0xFFFF_FFFF_FFFF_FFFF,
                w <= 0xFFFF_FFFF_FFFF_FFFF,
        ;
        c * w + self.edits as u128 > self.limit as u128
    }
}

/// A partition.
pub struct Partition<IO: PartIO> {
    /// The provider of the files.
    pub io: IO,
    /// The name of the repository; empty until it is known.
    pub repo_name: String,
    /// The identifier of the partition.
    pub part_id: PartId,
    /// The number of the current snapshot.
    pub ss_num: usize,
    /// Decides when a snapshot is due.
    pub ss_policy: SnapshotPolicy,
    /// The known states, by their sums.
    pub states: HashIndexed<PartState, Sum, SumKey>,
    /// The sums of the states without a known child.
    pub tips: Vec<Sum>,
    /// The commits that are not written yet, oldest first.
    pub unsaved: VecDeque<Commit>,
}

/// What a partition holds, but for the provider of its files.
pub struct PartView {
    pub repo_name: Seq<char>,
    pub part_id: PartId,
    pub ss_num: usize,
    pub policy: SnapshotPolicy,
    pub states: Map<Sum, StateView>,
    pub tips: Seq<Sum>,
    pub unsaved: Seq<CommitView>,
}

/// The views of states that are held by their sums.
pub open spec fn state_views(m: Map<Sum, PartState>) -> Map<Sum, StateView> {
    m.map_values(|s: PartState| s@)
}

/// What a partition holds after the commit `c` and the state `s` that it
/// leads to have come: the commit waits to be written, the state is known
/// and a tip, its parents are tips no more, and the commit and its changes
/// are counted.
pub open spec fn added(v: PartView, c: CommitView, s: StateView) -> PartView {
    PartView {
        repo_name: v.repo_name,
        part_id: v.part_id,
        ss_num: v.ss_num,
        policy: v.policy.with_commits(1).with_edits(c.changes.len() as usize),
        states: states_after(v.states, s),
        tips: tips_after(v.tips, s.parents, s.statesum),
        unsaved: v.unsaved.push(c),
    }
}

/// What pushing the commit `c` does to a partition: the error where there
/// is one, and what the partition holds then.
pub open spec fn commit_pushed(v: PartView, c: CommitView) -> (Result<(), PatchOp>, PartView) {
    if v.states.contains_key(c.statesum) {
        (Err(PatchOp::SumClash), v)
    } else if !v.states.contains_key(c.parents[0]) {
        (Err(PatchOp::NoParent), v)
    } else {
        match applied(v.states[c.parents[0]], c) {
            None => (Err(PatchOp::PatchApply), v),
            Some(s) => (Ok(()), added(v, c, s)),
        }
    }
}

/// Whether the state under construction `m` holds the same elements as the
/// state `parent`.
pub open spec fn same_elts(parent: StateView, m: crate::state::MutView) -> bool {
    forall|id: u64| #[trigger] change_of(parent.elts, m.elts, id) is None
}

/// What pushing the state under construction `m` at the time `timestamp`
/// does to a partition: the result, and what the partition holds then.
/// Where the element sum of `m` is that of its parent, nothing is pushed.
pub open spec fn state_pushed(
    v: PartView,
    m: crate::state::MutView,
    extra: Option<Seq<char>>,
    timestamp: i64,
) -> (Result<bool, PatchOp>, PartView) {
    if !v.states.contains_key(m.parent) {
        (Err(PatchOp::NoParent), v)
    } else if v.states[m.parent].elt_sum == m.elt_sum || same_elts(v.states[m.parent], m) {
        (Ok(false), v)
    } else {
        let c = commit_of(v.states[m.parent], m, timestamp, extra);
        (Ok(true), added(v, c, state_of(m.part_id, m.elts, c.parents, c.meta)))
    }
}

impl<IO: PartIO> View for Partition<IO> {
    type V = PartView;

    open spec fn view(&self) -> PartView {
        PartView {
            repo_name: self.repo_name@,
            part_id: self.part_id,
            ss_num: self.ss_num,
            policy: self.ss_policy,
            states: state_views(index_states(self.states)),
            tips: self.tips@,
            unsaved: commit_views(self.unsaved@),
        }
    }
}

/// The seconds since the epoch, from `chrono::Utc::now` and `timestamp`;
/// nothing is claimed of them, since they depend on the clock.
#[verifier::external_body]
pub(crate) fn now_seconds() -> (t: i64) {
    chrono::Utc::now().timestamp()
}

/// The tips that are left when the states `gone` have a child.
pub fn tips_without(tips: &Vec<Sum>, gone: &Vec<Sum>) -> (out: Vec<Sum>)
    ensures
        out@ == without(tips@, gone@),
{
    let mut out: Vec<Sum> = Vec::new();
    let mut i: usize = 0;
    proof {
        reveal(Seq::filter);
        assert(tips@.subrange(0, 0) =~= Seq::<Sum>::empty());
    }
    while i < tips.len()
        invariant
            i <= tips.len(),
            out@ == without(tips@.subrange(0, i as int), gone@),
        decreases tips.len() - i,
    {
        proof {
            reveal(Seq::filter);
            let s = tips@.subrange(0, i + 1);
            assert(s.drop_last() =~= tips@.subrange(0, i as int));
            assert(s.last() == tips@[i as int]);
        }
        if !sums_contain(gone, &tips[i]) {
            out.push(tips[i]);
        }
        i += 1;
    }
    assert(tips@.subrange(0, tips.len() as int) =~= tips@);
    out
}

impl<IO: PartIO> Partition<IO> {
    /// The invariant of a partition: every state is known under its own
    /// sum, is a state of this partition and meets its own invariant; no
    /// tip occurs twice, and every tip is a known state; every commit that
    /// waits can be written.
    #[verifier::opaque]
    pub open spec fn wf(&self) -> bool {
        let m = index_states(self.states);
        &&& self.part_id.wf()
        &&& m.dom().finite()
        &&& forall|k: Sum|
            m.contains_key(k) ==> (#[trigger] m[k]).wf() && m[k].statesum == k && m[k].part_id
                == self.part_id
        &&& self.tips@.no_duplicates()
        &&& forall|i: int| 0 <= i < self.tips@.len() ==> m.contains_key(#[trigger] self.tips@[i])
        &&& forall|i: int| 0 <= i < self.unsaved@.len() ==> (#[trigger] self.unsaved@[i]).wf()
    }

    /// Whether elements have been loaded.
    pub fn is_loaded(&self) -> (r: bool)
        ensures
            r == (self@.tips.len() > 0),
    {
        self.tips.len() > 0
    }

    /// Whether the partition is ready for use: it has one tip.
    pub fn is_ready(&self) -> (r: bool)
        ensures
            r == (self@.tips.len() == 1),
    {
        self.tips.len() == 1
    }

    /// Replaces the policy for snapshots.
    pub fn set_policy(&mut self, policy: SnapshotPolicy)
        requires
            old(self).wf(),
        ensures
            final(self).wf(),
            final(self).io == old(self).io,
            final(self)@ == (PartView { policy, ..old(self)@ }),
    {
        proof {
            reveal(Partition::wf);
        }
        self.ss_policy = policy;
    }

    /// Whether a merge is required: there are several tips.
    pub fn merge_required(&self) -> (r: bool)
        ensures
            r == (self@.tips.len() > 1),
    {
        self.tips.len() > 1
    }

    /// The identifier of the partition.
    pub fn part_id(&self) -> (p: PartId)
        ensures
            p == self@.part_id,
    {
        self.part_id
    }

    /// Gives the provider of the files back and drops everything else.
    pub fn unwrap_io(self) -> (io: IO)
        ensures
            io == self.io,
    {
        self.io
    }

    /// Unloads the states. Where `force` is not set and commits wait to be
    /// written, nothing is unloaded. Tells whether the states were unloaded.
    pub fn unload(&mut self, force: bool) -> (r: bool)
        requires
            old(self).wf(),
        ensures
            final(self).wf(),
            r == (force || old(self)@.unsaved.len() == 0),
            final(self).io == old(self).io,
            final(self)@ == if r {
                PartView { states: Map::empty(), tips: Seq::empty(), ..old(self)@ }
            } else {
                old(self)@
            },
    {
        proof {
            reveal(Partition::wf);
        }
        if force || self.unsaved.len() == 0 {
            index_clear(&mut self.states);
            self.tips.clear();
            assert(state_views(index_states(self.states)) =~= Map::empty());
            true
        } else {
            false
        }
    }

    /// The sum of the tip: an error where nothing is loaded or a merge is
    /// required.
    pub fn tip_key(&self) -> (r: Result<&Sum, TipError>)
        ensures
            match r {
                Ok(k) => self@.tips.len() == 1 && *k == self@.tips[0],
                Err(TipError::NotReady) => self@.tips.len() == 0,
                Err(TipError::MergeRequired) => self@.tips.len() > 1,
            },
    {
        if self.tips.len() == 1 {
            Ok(&self.tips[0])
        } else if self.tips.len() == 0 {
            Err(TipError::NotReady)
        } else {
            Err(TipError::MergeRequired)
        }
    }

    /// The state of the tip: an error where nothing is loaded or a merge is
    /// required.
    pub fn tip(&self) -> (r: Result<&PartState, TipError>)
        requires
            self.wf(),
        ensures
            match r {
                Ok(s) => self@.tips.len() == 1 && s@ == self@.states[self@.tips[0]] && s.wf()
                    && s@.statesum == self@.tips[0],
                Err(TipError::NotReady) => self@.tips.len() == 0,
                Err(TipError::MergeRequired) => self@.tips.len() > 1,
            },
    {
        proof {
            reveal(Partition::wf);
        }
        match self.tip_key() {
            Ok(k) => match index_get(&self.states, k) {
                Some(s) => Ok(s),
                None => {
                    assert(false);
                    Err(TipError::NotReady)
                },
            },
            Err(e) => Err(e),
        }
    }

    /// The state with the sum `key`, if it is known.
    pub fn state(&self, key: &Sum) -> (r: Option<&PartState>)
        requires
            self.wf(),
        ensures
            r is Some <==> self@.states.contains_key(*key),
            r matches Some(s) ==> s@ == self@.states[*key] && s.wf() && s@.statesum == *key,
    {
        proof {
            reveal(Partition::wf);
        }
        index_get(&self.states, key)
    }

    /// Number of known states.
    pub fn num_states(&self) -> (n: usize)
        ensures
            n == self@.states.len(),
    {
        proof {
            assert(state_views(index_states(self.states)).dom() =~= index_states(
                self.states,
            ).dom());
        }
        index_len(&self.states)
    }

    /// Takes in a commit and the state that it leads to.
    fn add_pair(&mut self, commit: Commit, state: PartState)
        requires
            old(self).wf(),
            commit.wf(),
            state.wf(),
            commit@.parents == state@.parents,
            commit@.statesum == state@.statesum,
            state@.part_id == old(self)@.part_id,
        ensures
            final(self).wf(),
            final(self)@ == added(old(self)@, commit@, state@),
            final(self).io == old(self).io,
    {
        proof {
            reveal(Partition::wf);
            lemma_tips_after(self.tips@, state.parents@, state.statesum);
        }
        self.ss_policy.add_commits(1);
        self.ss_policy.add_edits(commit.num_changes());
        let ghost waiting = self.unsaved@;
        self.unsaved.push_back(commit);
        assert(commit_views(self.unsaved@) =~= commit_views(waiting).push(commit@));
        let mut tips = tips_without(&self.tips, &state.parents);
        if !sums_contain(&tips, &state.statesum) {
            tips.push(state.statesum);
        }
        self.tips = tips;
        let ghost m = index_states(self.states);
        let ghost sum = state.statesum;
        let ghost sv = state@;
        let fresh = index_insert(&mut self.states, state);
        proof {
            let m2 = index_states(self.states);
            assert(state_views(m).contains_key(sum) == m.contains_key(sum));
            assert(state_views(m2) =~= states_after(state_views(m), sv));
            assert forall|i: int| 0 <= i < self.tips@.len() implies m2.contains_key(
                #[trigger] self.tips@[i],
            ) by {
                let t = self.tips@[i];
                assert(self.tips@.contains(t));
                if t != sum {
                    assert(old(self).tips@.contains(t));
                    let j = choose|j: int| 0 <= j < old(self).tips@.len() && old(self).tips@[j] == t;
                    assert(m.contains_key(old(self).tips@[j]));
                }
            }
        }
    }

    /// Takes in a commit: the state that it leads to is made of its first
    /// parent and becomes a tip, and the commit waits to be written. Fails,
    /// and changes nothing, where a state with the sum of the commit is
    /// known, where the first parent is not known, or where the commit does
    /// not lead from the first parent to a state with its sum.
    pub fn push_commit(&mut self, commit: Commit) -> (r: Result<(), PatchOp>)
        requires
            old(self).wf(),
            commit.wf(),
        ensures
            final(self).wf(),
            final(self).io == old(self).io,
            r == commit_pushed(old(self)@, commit@).0,
            final(self)@ == commit_pushed(old(self)@, commit@).1,
    {
        proof {
            reveal(Partition::wf);
        }
        if index_contains(&self.states, &commit.statesum) {
            return Err(PatchOp::SumClash);
        }
        let first_parent = *commit.first_parent();
        let state = match index_get(&self.states, &first_parent) {
            None => {
                return Err(PatchOp::NoParent);
            },
            Some(parent) => match commit.apply(parent) {
                Ok(s) => s,
                Err(e) => {
                    return Err(e);
                },
            },
        };
        self.add_pair(commit, state);
        Ok(())
    }

    /// Takes in a state under construction as it is at the time
    /// `timestamp`: see `state_pushed`.
    pub fn push_state_at(&mut self, state: MutPartState, extra: ExtraMeta, timestamp: i64) -> (r:
        Result<bool, PatchOp>)
        requires
            old(self).wf(),
            state.wf(),
            state@.part_id == old(self)@.part_id,
            extra_bytes(extra@).len() <= MAX_EXTRA,
        ensures
            final(self).wf(),
            final(self).io == old(self).io,
            r == state_pushed(old(self)@, state@, extra@, timestamp).0,
            final(self)@ == state_pushed(old(self)@, state@, extra@, timestamp).1,
    {
        proof {
            reveal(Partition::wf);
        }
        let commit = match index_get(&self.states, &state.parent) {
            None => {
                return Err(PatchOp::NoParent);
            },
            Some(parent) => {
                if parent.elt_sum == state.elt_sum {
                    return Ok(false);
                }
                match Commit::from_diff(parent, &state, timestamp, extra) {
                    None => {
                        return Ok(false);
                    },
                    Some(c) => c,
                }
            },
        };
        proof {
            reveal(CommitView::wf);
        }
        let new_state = PartState::from_mut(
            state,
            copy_sums(&commit.parents),
            commit.meta.duplicate(),
        );
        self.add_pair(commit, new_state);
        Ok(true)
    }

    /// Takes in a state under construction: the commit that leads from its
    /// parent to it is made and waits to be written, and the state becomes a
    /// tip. Tells whether anything was pushed: nothing is where the state
    /// holds what its parent holds. Fails where the parent is not known.
    pub fn push_state(&mut self, state: MutPartState, extra: ExtraMeta) -> (r: Result<
        bool,
        PatchOp,
    >)
        requires
            old(self).wf(),
            state.wf(),
            state@.part_id == old(self)@.part_id,
            extra_bytes(extra@).len() <= MAX_EXTRA,
        ensures
            final(self).wf(),
            final(self).io == old(self).io,
            exists|timestamp: i64|
                r == (#[trigger] state_pushed(old(self)@, state@, extra@, timestamp)).0
                    && final(self)@ == state_pushed(old(self)@, state@, extra@, timestamp).1,
    {
        let timestamp = now_seconds();
        let ghost was = self@;
        let ghost m = state@;
        let ghost x = extra@;
        let r = self.push_state_at(state, extra, timestamp);
        assert(r == state_pushed(was, m, x, timestamp).0 && self@ == state_pushed(
            was,
            m,
            x,
            timestamp,
        ).1);
        r
    }
}

/// What checking the header of a file against the name of the repository
/// and the identifier of the partition gives: the error where the header
/// does not fit, and the name of the repository afterwards. A name that is
/// not known yet is taken from the header.
pub open spec fn head_checked(
    head_name: Seq<char>,
    head_part: Option<PartId>,
    name: Seq<char>,
    part: PartId,
) -> (Result<(), Error>, Seq<char>) {
    if encode_utf8(name).len() != 0 && name != head_name {
        (Err(Error::Other("repository name does not match when loading (wrong repo?)")), name)
    } else {
        let known = if encode_utf8(name).len() == 0 {
            head_name
        } else {
            name
        };
        if head_part is Some && head_part != Some(part) {
            (Err(Error::Other("partition identifier differs from previous value")), known)
        } else {
            (Ok(()), known)
        }
    }
}

/// What taking in the data of a snapshot file does to a partition: the
/// header of the file or the error, and what the partition holds then. The
/// header must fit the repository and the partition; the state of the
/// snapshot becomes known and a tip.
#[verifier::opaque]
pub open spec fn snapshot_taken(v: PartView, bytes: Seq<u8>) -> (Result<HeaderView, Error>, PartView) {
    match parse_header(bytes) {
        Err(e) => (Err(Error::Read(e)), v),
        Ok(h) => {
            let checked = head_checked(h.0.name, h.0.part_id, v.repo_name, v.part_id);
            let named = PartView { repo_name: checked.1, ..v };
            match checked.0 {
                Err(e) => (Err(e), named),
                Ok(_) => match parse_snapshot(bytes, h.1, v.part_id) {
                    Err(e) => (Err(Error::Read(e)), named),
                    Ok(s) => (
                        Ok(h.0),
                        PartView {
                            states: states_after(v.states, s),
                            tips: if v.tips.contains(s.statesum) {
                                v.tips
                            } else {
                                v.tips.push(s.statesum)
                            },
                            ..named
                        },
                    ),
                },
            }
        },
    }
}

/// What taking in the data of a commit log file does: the header of the
/// file or the error, what the partition holds then, and the commits that
/// wait to be replayed, to which those of the log are added as far as they
/// can be read. The header must fit the repository and the partition.
#[verifier::opaque]
pub open spec fn log_taken(v: PartView, bytes: Seq<u8>, queue: Seq<CommitView>) -> (
    Result<HeaderView, Error>,
    PartView,
    Seq<CommitView>,
) {
    match parse_header(bytes) {
        Err(e) => (Err(Error::Read(e)), v, queue),
        Ok(h) => {
            let checked = head_checked(h.0.name, h.0.part_id, v.repo_name, v.part_id);
            let named = PartView { repo_name: checked.1, ..v };
            let log = parse_log(bytes, h.1);
            match checked.0 {
                Err(e) => (Err(e), named, queue),
                Ok(_) => (
                    match log.1 {
                        Some(e) => Err(Error::Read(e)),
                        None => Ok(h.0),
                    },
                    named,
                    queue + log.0,
                ),
            }
        },
    }
}

/// Checks the header of a file against the name of the repository and the
/// identifier of the partition: see `head_checked`.
pub fn verify_head(head: &FileHeader, self_name: &mut String, self_partid: PartId) -> (r: Result<
    (),
    Error,
>)
    ensures
        r == head_checked(head@.name, head@.part_id, old(self_name)@, self_partid).0,
        final(self_name)@ == head_checked(head@.name, head@.part_id, old(self_name)@, self_partid).1,
{
    if self_name.as_str().as_bytes().len() == 0 {
        *self_name = head.name.clone();
    } else if !(*self_name == head.name) {
        return Err(Error::Other("repository name does not match when loading (wrong repo?)"));
    }
    match head.part_id {
        Some(h_pid) => {
            if !(self_partid == h_pid) {
                return Err(Error::Other("partition identifier differs from previous value"));
            }
        },
        None => {},
    }
    Ok(())
}

/// Moves the commits of a list to a queue, in their order.
pub fn queue_of(list: Vec<Commit>) -> (queue: VecDeque<Commit>)
    ensures
        queue@ == list@,
{
    let mut back: Vec<Commit> = Vec::new();
    let mut list = list;
    let ghost all = list@;
    assert(all.subrange(0, all.len() as int) =~= all);
    while list.len() > 0
        invariant
            list@.len() + back@.len() == all.len(),
            list@ == all.subrange(0, list@.len() as int),
            forall|i: int| 0 <= i < back@.len() ==> back@[i] == all[all.len() - 1 - i],
        decreases list@.len(),
    {
        let ghost was = list@;
        match list.pop() {
            Some(c) => {
                back.push(c);
                assert(list@ =~= all.subrange(0, list@.len() as int));
            },
            None => {},
        }
    }
    let mut queue: VecDeque<Commit> = VecDeque::new();
    while back.len() > 0
        invariant
            queue@.len() + back@.len() == all.len(),
            queue@ == all.subrange(0, queue@.len() as int),
            forall|i: int| 0 <= i < back@.len() ==> back@[i] == all[all.len() - 1 - i],
        decreases back@.len(),
    {
        match back.pop() {
            Some(c) => {
                queue.push_back(c);
                assert(queue@ =~= all.subrange(0, queue@.len() as int));
            },
            None => {},
        }
    }
    assert(all.subrange(0, all.len() as int) =~= all);
    queue
}

/// The header of a file of the partition `part_id` of the repository
/// `name`.
pub open spec fn head_of(
    ftype: FileType,
    name: Seq<char>,
    part_id: PartId,
    user: Seq<UserView>,
) -> HeaderView {
    HeaderView { ftype, name, part_id: Some(part_id), user }
}

/// The data of a snapshot file with the header `head` and the elements
/// `elts`, written on the day `date`.
pub open spec fn snapshot_file_bytes(
    head: HeaderView,
    elts: Seq<(u64, Seq<u8>)>,
    date: Seq<u8>,
) -> Seq<u8> {
    header_bytes(head) + snapshot_bytes(header_bytes(head), elts, date)
}

/// What a new partition holds: the blank state, as its only state and its
/// tip.
pub open spec fn blank_part(name: Seq<char>, part_id: PartId) -> PartView {
    PartView {
        repo_name: name,
        part_id,
        ss_num: 0,
        policy: SnapshotPolicy::fresh(),
        states: map![Sum::zero_sum() => crate::state::rooted(part_id, Seq::empty())],
        tips: seq![Sum::zero_sum()],
        unsaved: Seq::empty(),
    }
}

/// The error for a name that is not allowed.
pub open spec fn name_fault() -> Error {
    Error::arg_spec("the name of a repository is not empty and holds no NUL")
}

/// Whether the provider may name `id` as the identifier of its partition:
/// whether its `part_id` may return `id`.
pub open spec fn may_identify<IO: PartIO>(io: &IO, id: PartId) -> bool {
    call_ensures(IO::part_id, (io,), id)
}

/// Whether `r` is what creating a partition gives, where the provider `io`
/// names `id`, the day is `date`, the provider goes through `states` and is
/// called as `calls` say. A name that is not allowed is an error, and the
/// provider is not asked. An identifier that is none of a partition is an
/// error. Then the provider is asked once, to make the snapshot 0 of the
/// header and the snapshot of the blank state. Where it makes it, the
/// result is the new partition on the provider as it then is; where a
/// snapshot 0 is there, and where the provider fails, the result is an
/// error.
pub open spec fn created<IO: PartIO>(
    io: IO,
    name: Seq<char>,
    user: Seq<UserView>,
    id: PartId,
    date: Seq<u8>,
    states: Seq<IO>,
    calls: Seq<Call>,
    r: Result<Partition<IO>, Error>,
) -> bool {
    let part_id = PartId { id: id.id };
    let head = head_of(FileType::Snapshot(0), name, part_id, user);
    &&& states.len() == calls.len() + 1
    &&& states[0] == io
    &&& if !name_ok(encode_utf8(name)) {
        calls.len() == 0 && r == Err::<Partition<IO>, Error>(name_fault())
    } else if !may_identify(&io, id) {
        false
    } else if !part_id.wf() {
        calls.len() == 0 && r == Err::<Partition<IO>, Error>(
            Error::arg_spec("invalid partition identifier"),
        )
    } else {
        &&& calls.len() == 1
        &&& date.len() == 8
        &&& calls[0].asked == Asked::Snapshot(0)
        &&& calls[0].data == snapshot_file_bytes(head, Seq::empty(), date)
        &&& match calls[0].answer {
            Ok(true) => r matches Ok(p) && p.wf() && p.io == states[1] && p@ == blank_part(
                name,
                part_id,
            ),
            Ok(false) => r == Err::<Partition<IO>, Error>(Error::Io("snapshot already exists")),
            Err(x) => r == Err::<Partition<IO>, Error>(x),
        }
    }
}

impl<IO: PartIO> Partition<IO> {
    /// Opens a partition on the files of `io`, with the identifier that
    /// `io` names. Nothing is loaded; the name of the repository is not
    /// known. Fails where `io` names no valid identifier of a partition.
    pub fn open(io: IO) -> (r: Result<Partition<IO>, Error>)
        ensures
            r matches Ok(p) ==> p.wf() && p.io == io && p@ == (PartView {
                repo_name: p@.repo_name,
                part_id: p@.part_id,
                ss_num: 0,
                policy: SnapshotPolicy::fresh(),
                states: Map::empty(),
                tips: Seq::empty(),
                unsaved: Seq::empty(),
            }) && encode_utf8(p@.repo_name).len() == 0,
            r matches Err(e) ==> e == Error::arg_spec("invalid partition identifier"),
            exists|id: PartId| #[trigger]
                may_identify(&io, id) && (r is Ok <==> (PartId { id: id.id }).wf()) && (
                r matches Ok(p) ==> p@.part_id.id == id.id),
    {
        let given = io.part_id();
        proof {
            assert(may_identify(&io, given));
        }
        let part_id = match PartId::try_from(given.id) {
            Some(p) => p,
            None => {
                return Err(Error::arg("invalid partition identifier"));
            },
        };
        let name = String::new();
        let part = Partition {
            io: io,
            repo_name: name,
            part_id: part_id,
            ss_num: 0,
            ss_policy: SnapshotPolicy::new(),
            states: index_new(),
            tips: Vec::new(),
            unsaved: VecDeque::new(),
        };
        proof {
            reveal(Partition::wf);
            assert(part@.states =~= Map::empty());
            assert(part@.unsaved =~= Seq::empty());
            assert(part@.repo_name =~= Seq::empty());
        }
        Ok(part)
    }

    /// Creates a partition on the files of `io`: the blank state is its
    /// only state and its tip, and a snapshot of it is written as snapshot
    /// 0. Fails where the name is not allowed, where `io` gives no valid
    /// identifier of a partition, where snapshot 0 exists already, or where
    /// `io` fails. See `created`; every call of the provider is one that
    /// its own contract admits.
    pub fn create(io: IO, name: &str, user_fields: Vec<UserData>) -> (r: Result<
        Partition<IO>,
        Error,
    >)
        ensures
            !name_ok(name.spec_bytes()) ==> (r matches Err(e) && e == name_fault()),
            r matches Ok(p) ==> p.wf() && p@ == blank_part(name@, p@.part_id),
            exists|id: PartId, date: Seq<u8>, states: Seq<IO>, calls: Seq<Call>| #[trigger]
                created(io, name@, user_views(user_fields@), id, date, states, calls, r)
                    && forall|i: int|
                    #![trigger calls[i]]
                    0 <= i < calls.len() ==> exists|m: &mut IO, data: &[u8]|
                        #![auto]
                        *m == states[i] && *final(m) == states[i + 1] && data@ == calls[i].data
                            && match calls[i].asked {
                            Asked::Snapshot(ss) => call_ensures(
                                IO::new_ss,
                                (m, ss, data),
                                calls[i].answer,
                            ),
                            Asked::Log(ss, cl) => call_ensures(
                                IO::new_ss_cl,
                                (m, ss, cl, data),
                                calls[i].answer,
                            ),
                            Asked::Append(ss, cl) => call_ensures(
                                IO::append_ss_cl,
                                (m, ss, cl, data),
                                calls[i].answer,
                            ),
                        },
    {
        let ghost user = user_views(user_fields@);
        let ghost io0 = io;
        let ghost none = Seq::<Call>::empty();
        match validate_repo_name(name) {
            Ok(()) => {},
            Err(e) => {
                proof {
                    assert(created(
                        io0,
                        name@,
                        user,
                        arbitrary(),
                        Seq::empty(),
                        seq![io0],
                        none,
                        Err::<Partition<IO>, Error>(e),
                    ));
                }
                return Err(e);
            },
        }
        let mut io = io;
        let given = io.part_id();
        let part_id = match PartId::try_from(given.id) {
            Some(p) => p,
            None => {
                proof {
                    assert(created(
                        io0,
                        name@,
                        user,
                        given,
                        Seq::empty(),
                        seq![io0],
                        none,
                        Err::<Partition<IO>, Error>(
                            Error::arg_spec("invalid partition identifier"),
                        ),
                    ));
                }
                return Err(Error::arg("invalid partition identifier"));
            },
        };
        let state = PartState::new(part_id);
        let header = FileHeader {
            ftype: FileType::Snapshot(0),
            name: name.to_owned(),
            part_id: Some(part_id),
            user: user_fields,
        };
        let mut bytes: Vec<u8> = Vec::new();
        match write_head(&header, &mut bytes) {
            Ok(()) => {},
            Err(e) => {
                assert(false);
                return Err(e);
            },
        }
        match write_snapshot(&state, &mut bytes) {
            Ok(()) => {},
            Err(e) => {
                assert(false);
                return Err(e);
            },
        }
        let ghost date = choose|date: Seq<u8>|
            date.len() == 8 && bytes@ == header_bytes(header@) + #[trigger] snapshot_bytes(
                header_bytes(header@),
                state@.elts,
                date,
            );
        let answer = io.new_ss(0, bytes.as_slice());
        let ghost calls = seq![Call { asked: Asked::Snapshot(0), data: bytes@, answer: answer }];
        let ghost states = seq![io0, io];
        proof {
            assert(bytes@ =~= Seq::<u8>::empty() + header_bytes(header@) + snapshot_bytes(
                header_bytes(header@),
                state@.elts,
                date,
            ));
            assert(header@ == head_of(FileType::Snapshot(0), name@, part_id, user));
            assert(part_id == PartId { id: given.id });
            assert forall|i: int| #![trigger calls[i]] 0 <= i < calls.len() implies exists|
                m: &mut IO,
                data: &[u8],
            |
                #![auto]
                *m == states[i] && *final(m) == states[i + 1] && data@ == calls[i].data
                    && match calls[i].asked {
                    Asked::Snapshot(ss) => call_ensures(IO::new_ss, (m, ss, data), calls[i].answer),
                    Asked::Log(ss, cl) => call_ensures(
                        IO::new_ss_cl,
                        (m, ss, cl, data),
                        calls[i].answer,
                    ),
                    Asked::Append(ss, cl) => call_ensures(
                        IO::append_ss_cl,
                        (m, ss, cl, data),
                        calls[i].answer,
                    ),
                } by {
                assert(exists|m: &mut IO, data: &[u8]|
                    #![auto]
                    *m == io0 && *final(m) == io && data@ == bytes@ && call_ensures(
                        IO::new_ss,
                        (m, 0usize, data),
                        answer,
                    ));
            }
        }
        match answer {
            Ok(true) => {},
            Ok(false) => {
                proof {
                    assert(created(
                        io0,
                        name@,
                        user,
                        given,
                        date,
                        states,
                        calls,
                        Err::<Partition<IO>, Error>(Error::Io("snapshot already exists")),
                    ));
                }
                return Err(Error::Io("snapshot already exists"));
            },
            Err(e) => {
                proof {
                    assert(created(
                        io0,
                        name@,
                        user,
                        given,
                        date,
                        states,
                        calls,
                        Err::<Partition<IO>, Error>(e),
                    ));
                }
                return Err(e);
            },
        }
        let mut states_held = index_new();
        let mut tips: Vec<Sum> = Vec::new();
        tips.push(state.statesum);
        let ghost sv = state@;
        index_insert(&mut states_held, state);
        let part = Partition {
            io: io,
            repo_name: header.name,
            part_id: part_id,
            ss_num: 0,
            ss_policy: SnapshotPolicy::new(),
            states: states_held,
            tips: tips,
            unsaved: VecDeque::new(),
        };
        proof {
            reveal(Partition::wf);
            assert(part@.states =~= map![Sum::zero_sum() => sv]);
            assert(part@.unsaved =~= Seq::empty());
            assert(part@.tips =~= seq![Sum::zero_sum()]);
            assert(created(
                io0,
                name@,
                user,
                given,
                date,
                states,
                calls,
                Ok::<Partition<IO>, Error>(part),
            ));
        }
        Ok(part)
    }

    /// Checks the header of a file against the name of the repository and
    /// the identifier of the partition: see `head_checked`.
    pub fn verify_head(head: &FileHeader, self_name: &mut String, self_partid: PartId) -> (r:
        Result<(), Error>)
        ensures
            r == head_checked(head@.name, head@.part_id, old(self_name)@, self_partid).0,
            final(self_name)@ == head_checked(
                head@.name,
                head@.part_id,
                old(self_name)@,
                self_partid,
            ).1,
    {
        verify_head(head, self_name, self_partid)
    }

    /// Sets the name of the repository where it is not known yet. Fails
    /// where it is known and is another name.
    pub fn set_repo_name(&mut self, repo_name: &str) -> (r: Result<(), Error>)
        requires
            old(self).wf(),
        ensures
            final(self).io == old(self).io,
            final(self).wf(),
            final(self)@ == (PartView {
                repo_name: if encode_utf8(old(self)@.repo_name).len() == 0 {
                    repo_name@
                } else {
                    old(self)@.repo_name
                },
                ..old(self)@
            }),
            r is Ok <==> encode_utf8(old(self)@.repo_name).len() == 0 || old(self)@.repo_name
                == repo_name@,
            r matches Err(e) ==> e == Error::Other(
                "repository name does not match when loading (wrong repo?)",
            ),
    {
        proof {
            reveal(Partition::wf);
        }
        if self.repo_name.as_str().as_bytes().len() == 0 {
            self.repo_name = repo_name.to_owned();
        } else {
            let given = repo_name.to_owned();
            if !(self.repo_name == given) {
                return Err(
                    Error::Other("repository name does not match when loading (wrong repo?)"),
                );
            }
        }
        Ok(())
    }

    /// The latest common ancestor of the states `k1` and `k2`: the first
    /// ancestor of `k1` that a breadth-first walk from `k2` along the parents
    /// finds. It is a known state and an ancestor of both, and no common
    /// ancestor is found before it in the walk. Where the ancestors of `k2`
    /// stand in one line (none has more than one parent), no common ancestor
    /// descends from it without being its ancestor too; where moreover no
    /// two states are ancestors of each other, it is a latest common
    /// ancestor, and it is `k1` where `k1` is an ancestor of `k2`. It is
    /// `k2` where `k2` is an ancestor of `k1`. Fails where the two have no
    /// common ancestor among the known states.
    pub fn latest_common_ancestor(&self, k1: &Sum, k2: &Sum) -> (r: Result<Sum, Error>)
        requires
            self.wf(),
        ensures
            r == match common_ancestor(self@.states, *k1, *k2) {
                Some(a) => Ok::<Sum, Error>(a),
                None => Err::<Sum, Error>(Error::Other("unable to find a common ancestor")),
            },
            r is Ok <==> exists|x: Sum| is_common(self@.states, x, *k1, *k2),
            match r {
                Ok(a) => is_ancestor(self@.states, a, *k1) && is_ancestor(self@.states, a, *k2)
                    && (single_parent(self@.states) ==> forall|x: Sum|
                    is_ancestor(self@.states, x, *k1) && is_ancestor(self@.states, x, *k2)
                        && #[trigger] is_ancestor(self@.states, a, x) ==> is_ancestor(
                        self@.states,
                        x,
                        a,
                    )) && (is_ancestor(self@.states, *k2, *k1) ==> a == *k2),
                Err(e) => e == Error::Other("unable to find a common ancestor") && forall|x: Sum|
                    !(is_ancestor(self@.states, x, *k1) && is_ancestor(self@.states, x, *k2)),
            },
            r matches Ok(a) ==> first_in_walk(self@.states, a, *k1, *k2),
            r matches Ok(a) ==> (lined(self@.states, *k2) ==> forall|x: Sum|
                #[trigger] is_common(self@.states, x, *k1, *k2) && is_ancestor(self@.states, a, x)
                    ==> is_ancestor(self@.states, x, a)),
            r matches Ok(a) ==> (lined(self@.states, *k2) && no_cycle(self@.states) ==> is_latest(
                self@.states,
                a,
                *k1,
                *k2,
            )),
            r matches Ok(a) ==> (lined(self@.states, *k2) && no_cycle(self@.states)
                && is_ancestor(self@.states, *k1, *k2) ==> a == *k1),
    {
        proof {
            reveal(Partition::wf);
            if single_parent(self@.states) {
                assert(lined(self@.states, *k2)) by {
                    reveal(lined);
                    assert forall|k: Sum| #[trigger]
                        is_ancestor(self@.states, k, *k2) implies self@.states[k].parents.len()
                        <= 1 by {
                        crate::detail::ancestry::lemma_ancestor_known(self@.states, k, *k2);
                    }
                }
            }
        }
        let a1 = ancestors_of(&self.states, k1);
        let a2 = ancestors_of(&self.states, k2);
        let mut i: usize = 0;
        while i < a2.len()
            invariant
                i <= a2.len(),
                forall|x: Sum| a1@.contains(x) <==> is_ancestor(self@.states, x, *k1),
                forall|x: Sum| a2@.contains(x) <==> is_ancestor(self@.states, x, *k2),
                lined(self@.states, *k2) ==> crate::detail::ancestry::is_line(
                    self@.states,
                    a2@,
                ),
                single_parent(self@.states) ==> lined(self@.states, *k2),
                a2@.len() > 0 ==> a2@[0] == *k2,
                forall|j: int| 0 <= j < i ==> !a1@.contains(#[trigger] a2@[j]),
                a2@ == found_from(self@.states, *k2),
                common_ancestor(self@.states, *k1, *k2) == first_shared(
                    self@.states,
                    a2@,
                    *k1,
                    i as int,
                ),
            decreases a2.len() - i,
        {
            if sums_contain(&a1, &a2[i]) {
                proof {
                    let a = a2@[i as int];
                    assert(a2@.contains(a));
                    assert(a1@.contains(a));
                    if is_ancestor(self@.states, *k2, *k1) && i > 0 {
                        assert(a1@.contains(*k2));
                        assert(!a1@.contains(a2@[0]));
                    }
                    assert(first_in_walk(self@.states, a, *k1, *k2)) by {
                        let order = found_from(self@.states, *k2);
                        assert(order[i as int] == a);
                        assert forall|j: int| 0 <= j < i implies !is_ancestor(
                            self@.states,
                            #[trigger] order[j],
                            *k1,
                        ) by {
                            assert(!a1@.contains(a2@[j]));
                        }
                    }
                    assert(is_common(self@.states, a, *k1, *k2));
                    if lined(self@.states, *k2) {
                        assert forall|x: Sum|
                            is_ancestor(self@.states, x, *k1) && is_ancestor(self@.states, x, *k2)
                                && #[trigger] is_ancestor(
                                self@.states,
                                a,
                                x,
                            ) implies is_ancestor(self@.states, x, a) by {
                            assert(a2@.contains(x));
                            let j = choose|j: int| 0 <= j < a2@.len() && a2@[j] == x;
                            if j < i {
                                assert(!a1@.contains(a2@[j]));
                            }
                            assert forall|k: int| 0 <= k < a2@.len() implies self@.states.contains_key(
                                #[trigger] a2@[k],
                            ) by {
                                assert(a2@.contains(a2@[k]));
                                crate::detail::ancestry::lemma_ancestor_known(
                                    self@.states,
                                    a2@[k],
                                    *k2,
                                );
                            }
                            crate::detail::ancestry::lemma_line_part(
                                self@.states,
                                a2@,
                                i as int,
                                j,
                            );
                        }
                        assert forall|x: Sum|
                            #[trigger] is_common(self@.states, x, *k1, *k2) && is_ancestor(
                                self@.states,
                                a,
                                x,
                            ) implies is_ancestor(self@.states, x, a) by {}
                        if no_cycle(self@.states) {
                            assert forall|x: Sum|
                                #[trigger] is_common(self@.states, x, *k1, *k2) && is_ancestor(
                                    self@.states,
                                    a,
                                    x,
                                ) implies x == a by {
                                assert(is_ancestor(self@.states, x, a));
                            }
                            if is_ancestor(self@.states, *k1, *k2) {
                                crate::detail::ancestry::lemma_ancestor_known(
                                    self@.states,
                                    *k1,
                                    *k2,
                                );
                                crate::detail::ancestry::lemma_own_ancestor(self@.states, *k1);
                                assert(is_common(self@.states, *k1, *k1, *k2));
                            }
                        }
                    }
                }
                return Ok(a2[i]);
            }
            proof {
                assert(!a1@.contains(a2@[i as int]));
            }
            i += 1;
        }
        proof {
            assert forall|x: Sum|
                !(is_ancestor(self@.states, x, *k1) && is_ancestor(self@.states, x, *k2)) by {
                if is_ancestor(self@.states, x, *k1) && is_ancestor(self@.states, x, *k2) {
                    assert(a2@.contains(x));
                    let j = choose|j: int| 0 <= j < a2@.len() && a2@[j] == x;
                    assert(!a1@.contains(a2@[j]));
                }
            }
        }
        Err(Error::Other("unable to find a common ancestor"))
    }

    /// Takes in the data of a snapshot file: the header must fit the
    /// repository and the partition; the state of the snapshot becomes known
    /// and a tip. Gives the header.
    pub fn accept_snapshot(&mut self, bytes: &[u8]) -> (r: Result<FileHeader, Error>)
        requires
            old(self).wf(),
        ensures
            final(self).wf(),
            final(self).io == old(self).io,
            final(self)@.part_id == old(self)@.part_id,
            final(self)@.ss_num == old(self)@.ss_num,
            final(self)@.policy == old(self)@.policy,
            final(self)@.unsaved == old(self)@.unsaved,
            final(self)@ == snapshot_taken(old(self)@, bytes@).1,
            match snapshot_taken(old(self)@, bytes@).0 {
                Ok(h) => r matches Ok(head) && head@ == h,
                Err(e) => r matches Err(x) && x == e,
            },
    {
        proof {
            reveal(Partition::wf);
            reveal(snapshot_taken);
            reveal(parse_header);
        }
        let (head, pos) = match read_head(bytes) {
            Ok(h) => h,
            Err(e) => {
                return Err(e);
            },
        };
        match verify_head(&head, &mut self.repo_name, self.part_id) {
            Ok(()) => {},
            Err(e) => {
                return Err(e);
            },
        }
        let state = match read_snapshot(bytes, pos, self.part_id) {
            Ok(s) => s,
            Err(e) => {
                return Err(e);
            },
        };
        if !sums_contain(&self.tips, &state.statesum) {
            let ghost was = self.tips@;
            self.tips.push(state.statesum);
            proof {
                assert forall|i: int, j: int|
                    0 <= i < self.tips@.len() && 0 <= j < self.tips@.len() && i != j implies self.tips@[i]
                    != self.tips@[j] by {
                    if i < was.len() && j < was.len() {
                        assert(was[i] != was[j]);
                    } else if i < was.len() {
                        assert(was.contains(was[i]));
                    } else {
                        assert(was.contains(was[j]));
                    }
                }
            }
        }
        let ghost m = index_states(self.states);
        let ghost sum = state.statesum;
        let ghost sv = state@;
        let ghost tips_before = old(self).tips@;
        index_insert(&mut self.states, state);
        proof {
            let m2 = index_states(self.states);
            assert(state_views(m).contains_key(sum) == m.contains_key(sum));
            assert(state_views(m2) =~= states_after(state_views(m), sv));
            assert forall|i: int| 0 <= i < self.tips@.len() implies m2.contains_key(
                #[trigger] self.tips@[i],
            ) by {
                if i < tips_before.len() {
                    assert(self.tips@[i] == tips_before[i]);
                    assert(m.contains_key(tips_before[i]));
                }
            }
        }
        Ok(head)
    }

    /// Takes in the data of a commit log file: the header must fit the
    /// repository and the partition; the commits of the log are appended to
    /// `queue`. Gives the header.
    pub fn accept_log(&mut self, bytes: &[u8], queue: &mut Vec<Commit>) -> (r: Result<
        FileHeader,
        Error,
    >)
        requires
            old(self).wf(),
            all_wf(old(queue)@),
        ensures
            final(self).wf(),
            all_wf(final(queue)@),
            final(self).io == old(self).io,
            final(self)@ == (PartView { repo_name: final(self)@.repo_name, ..old(self)@ }),
            final(self)@ == log_taken(old(self)@, bytes@, commit_views(old(queue)@)).1,
            commit_views(final(queue)@) == log_taken(
                old(self)@,
                bytes@,
                commit_views(old(queue)@),
            ).2,
            match log_taken(old(self)@, bytes@, commit_views(old(queue)@)).0 {
                Ok(h) => r matches Ok(head) && head@ == h,
                Err(e) => r matches Err(x) && x == e,
            },
    {
        proof {
            reveal(Partition::wf);
            reveal(log_taken);
            reveal(parse_header);
        }
        let (head, pos) = match read_head(bytes) {
            Ok(h) => h,
            Err(e) => {
                return Err(e);
            },
        };
        match verify_head(&head, &mut self.repo_name, self.part_id) {
            Ok(()) => {},
            Err(e) => {
                return Err(e);
            },
        }
        let ghost before = queue@;
        let first = match crate::readwrite::commitlog::read_log_start(bytes, pos) {
            Ok(p) => p,
            Err(e) => {
                assert(commit_views(queue@) =~= commit_views(before) + Seq::<CommitView>::empty());
                return Err(Error::Read(e));
            },
        };
        let (mut fresh, fault) = read_commits(bytes, first);
        let ghost added = fresh@;
        queue.append(&mut fresh);
        proof {
            assert(commit_views(queue@) =~= commit_views(before) + commit_views(added));
            assert(all_wf(queue@)) by {
                assert forall|i: int| 0 <= i < queue@.len() implies (#[trigger] queue@[i]).wf() by {
                    if i < before.len() {
                        assert(queue@[i] == before[i]);
                    } else {
                        assert(queue@[i] == added[i - before.len()]);
                    }
                }
            }
        }
        match fault {
            Some(e) => {
                return Err(Error::Read(e));
            },
            None => {},
        }
        Ok(head)
    }
}

/// The key that a text names: its bytes without the spaces, with capital
/// letters for the small letters of ASCII.
pub open spec fn key_of(text: Seq<u8>) -> Seq<u8>
    decreases text.len(),
{
    if text.len() == 0 {
        Seq::empty()
    } else if text.last() == 32 {
        key_of(text.drop_last())
    } else if 97 <= text.last() <= 122 {
        key_of(text.drop_last()).push((text.last() - 32) as u8)
    } else {
        key_of(text.drop_last()).push(text.last())
    }
}

/// The key that a text names: see `key_of`.
pub fn key_bytes(text: &[u8]) -> (key: Vec<u8>)
    ensures
        key@ == key_of(text@),
{
    let mut key: Vec<u8> = Vec::new();
    let mut i: usize = 0;
    assert(text@.subrange(0, 0) =~= Seq::<u8>::empty());
    while i < text.len()
        invariant
            i <= text.len(),
            key@ == key_of(text@.subrange(0, i as int)),
        decreases text.len() - i,
    {
        proof {
            let t = text@.subrange(0, i + 1);
            assert(t.drop_last() =~= text@.subrange(0, i as int));
            assert(t.last() == text@[i as int]);
        }
        let c = text[i];
        if c == 32 {
        } else if 97 <= c && c <= 122 {
            key.push(c - 32);
        } else {
            key.push(c);
        }
        i += 1;
    }
    assert(text@.subrange(0, text.len() as int) =~= text@);
    key
}

/// A state of a partition, with the tips of the partition.
pub struct StateItem<'a> {
    pub state: &'a PartState,
    pub tips: &'a Vec<Sum>,
}

impl<'a> StateItem<'a> {
    /// Whether the state is a tip.
    pub fn is_tip(&self) -> (r: bool)
        ensures
            r == self.tips@.contains(self.state@.statesum),
    {
        sums_contain(self.tips, &self.state.statesum)
    }

    /// The state.
    pub fn state(&self) -> (s: &'a PartState)
        ensures
            s == self.state,
    {
        self.state
    }
}

/// Walks over the states of a partition.
pub struct StateIter<'a> {
    pub states: &'a HashIndexed<PartState, Sum, SumKey>,
    pub tips: &'a Vec<Sum>,
    pub sums: Vec<Sum>,
    pub pos: usize,
}

impl<'a> StateIter<'a> {
    /// The sums of the states that the walk has not given yet.
    pub open spec fn remaining(&self) -> Seq<Sum> {
        if self.pos <= self.sums@.len() {
            self.sums@.subrange(self.pos as int, self.sums@.len() as int)
        } else {
            Seq::empty()
        }
    }

    /// The next state; nothing at the end of the walk.
    pub fn next(&mut self) -> (r: Option<StateItem<'a>>)
        requires
            forall|i: int|
                0 <= i < old(self).sums@.len() ==> index_states(*old(self).states).contains_key(
                    #[trigger] old(self).sums@[i],
                ),
        ensures
            final(self).states == old(self).states,
            final(self).tips == old(self).tips,
            final(self).sums == old(self).sums,
            match r {
                Some(item) => old(self).remaining().len() > 0
                    && final(self).remaining() == old(self).remaining().drop_first()
                    && item.state.statesum == old(self).remaining()[0]
                    && *item.state == index_states(*old(self).states)[old(self).remaining()[0]]
                    && item.tips == old(self).tips,
                None => old(self).remaining().len() == 0 && final(self).pos == old(self).pos,
            },
    {
        if self.pos >= self.sums.len() {
            return None;
        }
        let key = self.sums[self.pos];
        self.pos += 1;
        proof {
            assert(self.remaining() =~= old(self).remaining().drop_first());
        }
        match index_get(self.states, &key) {
            Some(state) => Some(StateItem { state: state, tips: self.tips }),
            None => {
                assert(false);
                None
            },
        }
    }

    /// How many states the walk has not given yet.
    pub fn size_hint(&self) -> (n: usize)
        ensures
            n == self.remaining().len(),
    {
        if self.pos <= self.sums.len() {
            self.sums.len() - self.pos
        } else {
            0
        }
    }
}

impl<IO: PartIO> Partition<IO> {
    /// A walk over all known states, in no order that could be relied on.
    pub fn states<'a>(&'a self) -> (it: StateIter<'a>)
        ensures
            it.pos == 0,
            it.tips@ == self@.tips,
            it.states == &self.states,
            it.sums@.no_duplicates(),
            it.sums@.to_set() == self@.states.dom(),
    {
        let sums = index_sums(&self.states);
        proof {
            assert(state_views(index_states(self.states)).dom() =~= index_states(
                self.states,
            ).dom());
        }
        StateIter { states: &self.states, tips: &self.tips, sums: sums, pos: 0 }
    }

    /// The state whose sum starts, in hexadecimal digits, with the key that
    /// `string` names: see `key_of`. Fails where no state or several states
    /// have such a sum; of several, two are named in the error.
    pub fn state_from_string(&self, string: &str) -> (r: Result<&PartState, MatchError>)
        requires
            self.wf(),
        ensures
            match r {
                Ok(s) => self@.states.contains_key(s@.statesum) && s@ == self@.states[s@.statesum]
                    && has_prefix(s@.statesum, key_of(string.spec_bytes())) && forall|k: Sum|
                    self@.states.contains_key(k) && has_prefix(k, key_of(string.spec_bytes()))
                        ==> k == s@.statesum,
                Err(MatchError::NoMatch) => forall|k: Sum|
                    self@.states.contains_key(k) ==> !has_prefix(k, key_of(string.spec_bytes())),
                Err(MatchError::MultiMatch(a, b)) => exists|k1: Sum, k2: Sum|
                    k1 != k2 && self@.states.contains_key(k1) && self@.states.contains_key(k2)
                        && has_prefix(k1, key_of(string.spec_bytes())) && has_prefix(
                        k2,
                        key_of(string.spec_bytes()),
                    ) && a@ == hex_chars(k1.bytes(), false) && b@ == hex_chars(k2.bytes(), false),
            },
    {
        proof {
            reveal(Partition::wf);
            assert(state_views(index_states(self.states)).dom() =~= index_states(
                self.states,
            ).dom());
        }
        let key = key_bytes(string.as_bytes());
        let sums = index_sums(&self.states);
        let mut found: Option<Sum> = None;
        let mut i: usize = 0;
        while i < sums.len()
            invariant
                i <= sums.len(),
                key@ == key_of(string.spec_bytes()),
                sums@.no_duplicates(),
                sums@.to_set() == self@.states.dom(),
                match found {
                    None => forall|j: int| 0 <= j < i ==> !has_prefix(#[trigger] sums@[j], key@),
                    Some(k) => has_prefix(k, key@) && exists|a: int|
                        0 <= a < i && sums@[a] == k && forall|j: int|
                            0 <= j < i && j != a ==> !has_prefix(#[trigger] sums@[j], key@),
                },
            decreases sums.len() - i,
        {
            if sums[i].matches_string(key.as_slice()) {
                match found {
                    Some(first) => {
                        proof {
                            let a = choose|a: int| 0 <= a < i && sums@[a] == first;
                            assert(sums@[a] != sums@[i as int]);
                            assert(sums@.to_set().contains(sums@[a]));
                            assert(sums@.to_set().contains(sums@[i as int]));
                        }
                        return Err(
                            MatchError::MultiMatch(
                                first.as_string(false),
                                sums[i].as_string(false),
                            ),
                        );
                    },
                    None => {
                        found = Some(sums[i]);
                    },
                }
            }
            i += 1;
        }
        match found {
            Some(k) => {
                proof {
                    let a = choose|a: int|
                        0 <= a < sums@.len() && sums@[a] == k && forall|j: int|
                            0 <= j < sums@.len() && j != a ==> !has_prefix(
                                #[trigger] sums@[j],
                                key@,
                            );
                    assert(sums@.to_set().contains(sums@[a]));
                    assert forall|k2: Sum|
                        self@.states.contains_key(k2) && has_prefix(k2, key@) implies k2 == k by {
                        assert(sums@.to_set().contains(k2));
                        let j = choose|j: int| 0 <= j < sums@.len() && sums@[j] == k2;
                        if j != a {
                            assert(!has_prefix(sums@[j], key@));
                        }
                    }
                }
                match index_get(&self.states, &k) {
                    Some(s) => Ok(s),
                    None => {
                        assert(false);
                        Err(MatchError::NoMatch)
                    },
                }
            },
            None => {
                proof {
                    assert forall|k: Sum| self@.states.contains_key(k) implies !has_prefix(
                        k,
                        key@,
                    ) by {
                        assert(sums@.to_set().contains(k));
                        let j = choose|j: int| 0 <= j < sums@.len() && sums@[j] == k;
                        assert(!has_prefix(sums@[j], key@));
                    }
                }
                Err(MatchError::NoMatch)
            },
        }
    }
}

} // verus!
