//! Loading a partition from the data of its files.

use vstd::prelude::*;
use crate::commit::Commit;
use crate::commit::CommitView;
use crate::commit::commit_views;
use crate::detail::graph::states_after;
use crate::detail::index::index_insert;
use crate::detail::index::index_states;
use crate::detail::part::PartIO;
use crate::detail::part::PartView;
use crate::detail::part::Partition;
use crate::detail::part::SnapshotPolicy;
use crate::detail::part::log_taken;
use crate::detail::part::snapshot_taken;
use crate::detail::part::state_views;
use crate::detail::replay::all_wf;
use crate::detail::replay::replay_all;
use crate::error::Error;
use crate::readwrite::header::FileHeader;
use crate::readwrite::header::HeaderView;
use crate::state::PartState;
use crate::state::rooted;
use crate::sum::Sum;

verus! {

/// The data of the files that loading reads, as the provider of the files
/// gave them.
pub struct LoadedFiles {
    /// One more than the number of the latest snapshot or log.
    pub ss_len: usize,
    /// The number of the first snapshot that was read.
    pub first: usize,
    /// The data of the snapshots from `first` on; nothing for a snapshot
    /// that is not there.
    pub snapshots: Vec<Option<Vec<u8>>>,
    /// For each of these snapshots, the data of its logs that are there, by
    /// their numbers.
    pub logs: Vec<Vec<Vec<u8>>>,
}

/// What the data of the files hold.
pub struct FilesView {
    pub ss_len: usize,
    pub first: usize,
    pub snapshots: Seq<Option<Seq<u8>>>,
    pub logs: Seq<Seq<Seq<u8>>>,
}

/// The data of a file that may be missing.
pub open spec fn file_view(file: Option<Vec<u8>>) -> Option<Seq<u8>> {
    match file {
        Some(bytes) => Some(bytes@),
        None => None,
    }
}

/// The data of the logs of a snapshot.
pub open spec fn logs_view(logs: Vec<Vec<u8>>) -> Seq<Seq<u8>> {
    logs@.map_values(|bytes: Vec<u8>| bytes@)
}

impl View for LoadedFiles {
    type V = FilesView;

    open spec fn view(&self) -> FilesView {
        FilesView {
            ss_len: self.ss_len,
            first: self.first,
            snapshots: self.snapshots@.map_values(|f: Option<Vec<u8>>| file_view(f)),
            logs: self.logs@.map_values(|l: Vec<Vec<u8>>| logs_view(l)),
        }
    }
}

impl FilesView {
    /// The invariant: there is a place for a snapshot and for logs for
    /// every number from `first` up to `ss_len`.
    pub open spec fn wf(self) -> bool {
        &&& self.first < self.ss_len
        &&& self.snapshots.len() == self.ss_len - self.first
        &&& self.logs.len() == self.ss_len - self.first
    }
}

/// A partition and the header that was read last, after the data of a
/// snapshot that may be missing were taken in.
pub open spec fn with_snapshot(v: PartView, head: Option<HeaderView>, file: Option<Seq<u8>>) -> Result<
    (PartView, Option<HeaderView>),
    Error,
> {
    match file {
        None => Ok((v, head)),
        Some(bytes) => match snapshot_taken(v, bytes).0 {
            Err(e) => Err(e),
            Ok(h) => Ok((snapshot_taken(v, bytes).1, Some(h))),
        },
    }
}

/// A partition, the header that was read last and the commits that wait,
/// after the data of the logs from the `k`-th on were taken in.
pub open spec fn with_logs(
    v: PartView,
    head: Option<HeaderView>,
    queue: Seq<CommitView>,
    logs: Seq<Seq<u8>>,
    k: int,
) -> Result<(PartView, Option<HeaderView>, Seq<CommitView>), Error>
    decreases logs.len() - k,
{
    if k < 0 || k >= logs.len() {
        Ok((v, head, queue))
    } else {
        let t = log_taken(v, logs[k], queue);
        match t.0 {
            Err(e) => Err(e),
            Ok(h) => with_logs(t.1, Some(h), t.2, logs, k + 1),
        }
    }
}

/// The same after the logs of the snapshots from the `i`-th on were taken
/// in.
pub open spec fn with_all_logs(
    v: PartView,
    head: Option<HeaderView>,
    queue: Seq<CommitView>,
    logs: Seq<Seq<Seq<u8>>>,
    i: int,
) -> Result<(PartView, Option<HeaderView>, Seq<CommitView>), Error>
    decreases logs.len() - i,
{
    if i < 0 || i >= logs.len() {
        Ok((v, head, queue))
    } else {
        match with_logs(v, head, queue, logs[i], 0) {
            Err(e) => Err(e),
            Ok(t) => with_all_logs(t.0, t.1, t.2, logs, i + 1),
        }
    }
}

/// A partition after the commits of `queue` were replayed, and the number
/// of changes that were applied.
#[verifier::opaque]
pub open spec fn with_replay(v: PartView, queue: Seq<CommitView>) -> Result<(PartView, usize), Error> {
    match replay_all(v.states, v.tips, queue, 0) {
        Err(e) => Err(Error::Replay(e)),
        Ok(rp) => Ok((PartView { states: rp.states, tips: rp.tips, ..v }, rp.edits)),
    }
}

/// Loading with all history, from the `i`-th snapshot on: every snapshot
/// is taken in, then its logs, and the commits of these logs are replayed.
/// `commits` and `edits` are the commits that were read for the snapshot
/// before, and the changes that were applied.
pub open spec fn all_loaded(
    v: PartView,
    head: Option<HeaderView>,
    f: FilesView,
    i: int,
    commits: usize,
    edits: usize,
) -> Result<(PartView, Option<HeaderView>, usize, usize), Error>
    decreases f.snapshots.len() - i,
{
    if i < 0 || i >= f.snapshots.len() {
        Ok((v, head, commits, edits))
    } else {
        match with_snapshot(v, head, f.snapshots[i]) {
            Err(e) => Err(e),
            Ok(a) => match with_logs(a.0, a.1, Seq::empty(), f.logs[i], 0) {
                Err(e) => Err(e),
                Ok(b) => match with_replay(b.0, b.2) {
                    Err(e) => Err(e),
                    Ok(c) => all_loaded(c.0, b.1, f, i + 1, b.2.len() as usize, c.1),
                },
            },
        }
    }
}

/// A partition that has no tip gets the blank state as its tip.
pub open spec fn seeded(v: PartView) -> PartView {
    if v.tips.len() == 0 {
        PartView {
            states: states_after(v.states, rooted(v.part_id, Seq::empty())),
            tips: seq![Sum::zero_sum()],
            ..v
        }
    } else {
        v
    }
}

/// Loading the latest state: the first snapshot is taken in, then all
/// logs; the commits are counted; where there is no tip, the blank state
/// becomes one; the commits are replayed, and the changes that were applied
/// are counted.
pub open spec fn latest_loaded(v: PartView, f: FilesView) -> Result<
    (PartView, Option<HeaderView>),
    Error,
> {
    match with_snapshot(v, None, f.snapshots[0]) {
        Err(e) => Err(e),
        Ok(a) => match with_all_logs(a.0, a.1, Seq::empty(), f.logs, 0) {
            Err(e) => Err(e),
            Ok(b) => {
                let counted = PartView {
                    policy: b.0.policy.with_commits(b.2.len() as usize),
                    ..b.0
                };
                match with_replay(seeded(counted), b.2) {
                    Err(e) => Err(e),
                    Ok(c) => Ok((PartView { policy: c.0.policy.with_edits(c.1), ..c.0 }, b.1)),
                }
            },
        },
    }
}

/// What loading makes of a partition and the data of its files: the header
/// that was read last, or the error, and what the partition holds after a
/// loading without error. The number of the current snapshot is the last
/// there is. Where the latest state was loaded from an older snapshot, a
/// snapshot is asked for. Loading fails where a file cannot be taken in,
/// where the replay fails, and where there is no tip or no header in the
/// end.
pub open spec fn files_loaded(v: PartView, f: FilesView, all_history: bool) -> (
    Result<HeaderView, Error>,
    PartView,
) {
    let loaded = if all_history {
        match all_loaded(v, None, f, 0, 0, 0) {
            Err(e) => Err(e),
            Ok(t) => Ok(
                (PartView { policy: t.0.policy.with_commits(t.2).with_edits(t.3), ..t.0 }, t.1),
            ),
        }
    } else {
        latest_loaded(v, f)
    };
    match loaded {
        Err(e) => (Err(e), v),
        Ok(t) => {
            let done = PartView {
                ss_num: (f.ss_len - 1) as usize,
                policy: if !all_history && f.first < f.ss_len - 1 {
                    SnapshotPolicy { commits: 1000, ..t.0.policy }
                } else {
                    t.0.policy
                },
                ..t.0
            };
            (
                if done.tips.len() > 0 && t.1 is Some {
                    Ok(t.1->0)
                } else {
                    Err(Error::Other("no data loaded"))
                },
                done,
            )
        },
    }
}

/// Whether the provider of the files may say that `n` is one more than
/// the number of the latest snapshot or log: whether its `ss_len` may
/// return `n`.
pub open spec fn may_count<IO: PartIO>(io: &IO, n: usize) -> bool {
    call_ensures(IO::ss_len, (io,), n)
}

/// Whether the provider of the files may say that `n` is one more than
/// the number of the last log of the snapshot `ss`: whether its
/// `ss_cl_len` may return `n`.
pub open spec fn may_count_logs<IO: PartIO>(io: &IO, ss: usize, n: usize) -> bool {
    call_ensures(IO::ss_cl_len, (io, ss), n)
}

/// Whether the provider of the files may answer `r` when it is asked for
/// the snapshot `ss`: whether its `read_ss` may return `r`.
pub open spec fn may_give<IO: PartIO>(io: &IO, ss: usize, r: Result<Option<Vec<u8>>, Error>) -> bool {
    call_ensures(IO::read_ss, (io, ss), r)
}

/// Whether the provider of the files may answer `r` when it is asked for
/// the log `cl` of the snapshot `ss`: whether its `read_ss_cl` may return
/// `r`.
pub open spec fn may_give_log<IO: PartIO>(
    io: &IO,
    ss: usize,
    cl: usize,
    r: Result<Option<Vec<u8>>, Error>,
) -> bool {
    call_ensures(IO::read_ss_cl, (io, ss, cl), r)
}

/// The files among `answers` that are there, in their order.
pub open spec fn present(answers: Seq<Option<Vec<u8>>>) -> Seq<Vec<u8>>
    decreases answers.len(),
{
    if answers.len() == 0 {
        Seq::empty()
    } else {
        match answers.last() {
            Some(bytes) => present(answers.drop_last()).push(bytes),
            None => present(answers.drop_last()),
        }
    }
}

/// Whether the provider may say that the snapshot `ss` has `n` places for
/// logs, and may give `answers` for the first of them, in their order.
pub open spec fn logs_answered<IO: PartIO>(
    io: &IO,
    ss: usize,
    n: usize,
    answers: Seq<Option<Vec<u8>>>,
) -> bool {
    &&& may_count_logs(io, ss, n)
    &&& answers.len() <= n
    &&& forall|i: int|
        0 <= i < answers.len() ==> may_give_log(
            io,
            ss,
            i as usize,
            Ok::<Option<Vec<u8>>, Error>(#[trigger] answers[i]),
        )
}

/// Whether `r` is what reading the logs of the snapshot `ss` may give: the
/// provider is asked for the number of places, and then for the log of
/// every place, in their order. The logs that are there are the result.
/// The first error of the provider ends the reading and is the result.
pub open spec fn logs_read<IO: PartIO>(io: &IO, ss: usize, r: Result<Vec<Vec<u8>>, Error>) -> bool {
    exists|n: usize, answers: Seq<Option<Vec<u8>>>| #[trigger]
        logs_answered(io, ss, n, answers) && match r {
            Ok(logs) => answers.len() == n && logs@ == present(answers),
            Err(e) => answers.len() < n && may_give_log(
                io,
                ss,
                answers.len() as usize,
                Err::<Option<Vec<u8>>, Error>(e),
            ),
        }
}

/// Whether reading the files may fail with `e` where the provider has `n`
/// places for snapshots: there is no place, or the provider fails so when
/// it is asked for a snapshot, or the reading of the logs of a snapshot
/// fails so.
pub open spec fn read_fails<IO: PartIO>(io: &IO, n: usize, e: Error) -> bool {
    ||| n == 0 && e == Error::Io("no snapshot files found")
    ||| exists|ss: usize| ss < n && #[trigger] may_give(io, ss, Err::<Option<Vec<u8>>, Error>(e))
    ||| exists|ss: usize| ss < n && #[trigger] logs_read(io, ss, Err::<Vec<Vec<u8>>, Error>(e))
}

/// Whether `r` is what reading the files for a loading may give. The
/// provider says how many places for snapshots there are. With all
/// history, every snapshot is read, from the first on. Without, the
/// snapshots are read from the latest down to the first that is there,
/// which is the first of the files; if none is there, the files start at
/// the place 0. The logs of every snapshot from the first of the files on
/// are read. The reading fails as `read_fails` says.
pub open spec fn files_read<IO: PartIO>(io: &IO, all_history: bool, r: Result<LoadedFiles, Error>) -> bool {
    match r {
        Ok(files) => {
            &&& files@.wf()
            &&& may_count(io, files.ss_len)
            &&& if all_history {
                files.first == 0
            } else {
                files.snapshots@[0] is Some || files.first == 0
            }
            &&& forall|i: int|
                0 <= i < files.snapshots@.len() ==> may_give(
                    io,
                    (files.first + i) as usize,
                    Ok::<Option<Vec<u8>>, Error>(#[trigger] files.snapshots@[i]),
                )
            &&& !all_history ==> forall|i: int|
                1 <= i < files.snapshots@.len() ==> (#[trigger] files.snapshots@[i]) is None
            &&& forall|i: int|
                0 <= i < files.logs@.len() ==> logs_read(
                    io,
                    (files.first + i) as usize,
                    Ok::<Vec<Vec<u8>>, Error>(#[trigger] files.logs@[i]),
                )
        },
        Err(e) => exists|n: usize| #[trigger] may_count(io, n) && read_fails(io, n, e),
    }
}

/// The view of a header that may be missing.
pub open spec fn head_view(head: Option<FileHeader>) -> Option<HeaderView> {
    match head {
        Some(h) => Some(h@),
        None => None,
    }
}

impl<IO: PartIO> Partition<IO> {
    /// Takes in the data of a snapshot that may be missing: see
    /// `with_snapshot`.
    fn take_snapshot(&mut self, head: &mut Option<FileHeader>, file: &Option<Vec<u8>>) -> (r: Result<
        (),
        Error,
    >)
        requires
            old(self).wf(),
        ensures
            final(self).wf(),
            final(self).io == old(self).io,
            final(self)@.part_id == old(self)@.part_id,
            final(self)@.unsaved == old(self)@.unsaved,
            match with_snapshot(old(self)@, head_view(*old(head)), file_view(*file)) {
                Ok(t) => r is Ok && final(self)@ == t.0 && head_view(*final(head)) == t.1,
                Err(e) => r matches Err(x) && x == e,
            },
    {
        match file {
            None => Ok(()),
            Some(bytes) => match self.accept_snapshot(bytes.as_slice()) {
                Ok(h) => {
                    *head = Some(h);
                    Ok(())
                },
                Err(e) => Err(e),
            },
        }
    }

    /// Takes in the data of the logs of a snapshot: see `with_logs`.
    fn take_logs(
        &mut self,
        head: &mut Option<FileHeader>,
        queue: &mut Vec<Commit>,
        logs: &Vec<Vec<u8>>,
    ) -> (r: Result<(), Error>)
        requires
            old(self).wf(),
            all_wf(old(queue)@),
        ensures
            final(self).wf(),
            all_wf(final(queue)@),
            final(self).io == old(self).io,
            final(self)@.part_id == old(self)@.part_id,
            final(self)@.unsaved == old(self)@.unsaved,
            match with_logs(
                old(self)@,
                head_view(*old(head)),
                commit_views(old(queue)@),
                logs_view(*logs),
                0,
            ) {
                Ok(t) => r is Ok && final(self)@ == t.0 && head_view(*final(head)) == t.1
                    && commit_views(final(queue)@) == t.2,
                Err(e) => r matches Err(x) && x == e,
            },
    {
        let ghost goal = with_logs(
            self@,
            head_view(*head),
            commit_views(queue@),
            logs_view(*logs),
            0,
        );
        let mut k: usize = 0;
        while k < logs.len()
            invariant
                k <= logs.len(),
                self.wf(),
                all_wf(queue@),
                self.io == old(self).io,
                self@.part_id == old(self)@.part_id,
                self@.unsaved == old(self)@.unsaved,
                goal == with_logs(
                    old(self)@,
                    head_view(*old(head)),
                    commit_views(old(queue)@),
                    logs_view(*logs),
                    0,
                ),
                goal == with_logs(
                    self@,
                    head_view(*head),
                    commit_views(queue@),
                    logs_view(*logs),
                    k as int,
                ),
            decreases logs.len() - k,
        {
            proof {
                assert(logs_view(*logs)[k as int] == logs@[k as int]@);
            }
            match self.accept_log(logs[k].as_slice(), queue) {
                Ok(h) => {
                    *head = Some(h);
                },
                Err(e) => {
                    return Err(e);
                },
            }
            k += 1;
        }
        Ok(())
    }

    /// Replays commits: see `with_replay`.
    fn take_replay(&mut self, queue: Vec<Commit>) -> (r: Result<usize, Error>)
        requires
            old(self).wf(),
            all_wf(queue@),
        ensures
            final(self).wf(),
            final(self).io == old(self).io,
            final(self)@.part_id == old(self)@.part_id,
            final(self)@.unsaved == old(self)@.unsaved,
            match with_replay(old(self)@, commit_views(queue@)) {
                Ok(t) => r matches Ok(n) && n == t.1 && final(self)@ == t.0,
                Err(e) => r matches Err(x) && x == e,
            },
    {
        proof {
            reveal(Partition::wf);
            reveal(with_replay);
        }
        let r = crate::detail::replay::replay(
            &mut self.states,
            &mut self.tips,
            crate::detail::part::queue_of(queue),
            self.part_id,
        );
        match r {
            Ok((edits, _left)) => Ok(edits),
            Err(e) => Err(e),
        }
    }

    /// Gives a partition that has no tip the blank state as its tip: see
    /// `seeded`.
    fn seed(&mut self)
        requires
            old(self).wf(),
        ensures
            final(self).wf(),
            final(self).io == old(self).io,
            final(self)@ == seeded(old(self)@),
    {
        proof {
            reveal(Partition::wf);
        }
        if self.tips.len() == 0 {
            let state = PartState::new(self.part_id);
            self.tips.push(state.statesum);
            let ghost m = index_states(self.states);
            let ghost sv = state@;
            index_insert(&mut self.states, state);
            proof {
                let m2 = index_states(self.states);
                assert(state_views(m).contains_key(Sum::zero_sum()) == m.contains_key(
                    Sum::zero_sum(),
                ));
                assert(state_views(m2) =~= states_after(state_views(m), sv));
                assert(self.tips@ =~= seq![Sum::zero_sum()]);
            }
        }
    }

    /// Loads the states of the partition from the data of its files: see
    /// `files_loaded`. Gives the header of the file that was read last.
    pub fn load_files(&mut self, files: &LoadedFiles, all_history: bool) -> (r: Result<
        FileHeader,
        Error,
    >)
        requires
            old(self).wf(),
            files@.wf(),
        ensures
            final(self).wf(),
            final(self).io == old(self).io,
            final(self)@.part_id == old(self)@.part_id,
            final(self)@.unsaved == old(self)@.unsaved,
            match files_loaded(old(self)@, files@, all_history).0 {
                Ok(h) => r matches Ok(head) && head@ == h,
                Err(e) => r matches Err(x) && x == e,
            },
            r is Ok ==> final(self)@ == files_loaded(old(self)@, files@, all_history).1,
    {
        let mut head: Option<FileHeader> = None;
        let ghost f = files@;
        if all_history {
            let mut commits: usize = 0;
            let mut edits: usize = 0;
            let mut i: usize = 0;
            while i < files.snapshots.len()
                invariant
                    i <= files.snapshots@.len(),
                    all_history,
                    f == files@,
                    f.wf(),
                    self.wf(),
                    self.io == old(self).io,
                    self@.part_id == old(self)@.part_id,
                    self@.unsaved == old(self)@.unsaved,
                    all_loaded(old(self)@, None, f, 0, 0, 0) == all_loaded(
                        self@,
                        head_view(head),
                        f,
                        i as int,
                        commits,
                        edits,
                    ),
                decreases files.snapshots@.len() - i,
            {
                proof {
                    assert(f.snapshots[i as int] == file_view(files.snapshots@[i as int]));
                    assert(f.logs[i as int] == logs_view(files.logs@[i as int]));
                }
                match self.take_snapshot(&mut head, &files.snapshots[i]) {
                    Ok(()) => {},
                    Err(e) => {
                        return Err(e);
                    },
                }
                let mut queue: Vec<Commit> = Vec::new();
                proof {
                    assert(commit_views(queue@) =~= Seq::empty());
                }
                match self.take_logs(&mut head, &mut queue, &files.logs[i]) {
                    Ok(()) => {},
                    Err(e) => {
                        return Err(e);
                    },
                }
                commits = queue.len();
                proof {
                    assert(commit_views(queue@).len() == queue@.len());
                }
                edits = match self.take_replay(queue) {
                    Ok(n) => n,
                    Err(e) => {
                        return Err(e);
                    },
                };
                i += 1;
            }
            proof {
                reveal(Partition::wf);
            }
            self.ss_policy.add_commits(commits);
            self.ss_policy.add_edits(edits);
        } else {
            proof {
                assert(f.snapshots[0] == file_view(files.snapshots@[0]));
            }
            match self.take_snapshot(&mut head, &files.snapshots[0]) {
                Ok(()) => {},
                Err(e) => {
                    return Err(e);
                },
            }
            let mut queue: Vec<Commit> = Vec::new();
            let ghost taken = self@;
            let ghost taken_head = head_view(head);
            let mut i: usize = 0;
            proof {
                assert(commit_views(queue@) =~= Seq::empty());
            }
            while i < files.logs.len()
                invariant
                    i <= files.logs@.len(),
                    !all_history,
                    with_snapshot(old(self)@, None, f.snapshots[0]) == Ok::<
                        (PartView, Option<HeaderView>),
                        Error,
                    >((taken, taken_head)),
                    f == files@,
                    f.wf(),
                    self.wf(),
                    all_wf(queue@),
                    self.io == old(self).io,
                    self@.part_id == old(self)@.part_id,
                    self@.unsaved == old(self)@.unsaved,
                    with_all_logs(taken, taken_head, Seq::empty(), f.logs, 0) == with_all_logs(
                        self@,
                        head_view(head),
                        commit_views(queue@),
                        f.logs,
                        i as int,
                    ),
                decreases files.logs@.len() - i,
            {
                proof {
                    assert(f.logs[i as int] == logs_view(files.logs@[i as int]));
                }
                match self.take_logs(&mut head, &mut queue, &files.logs[i]) {
                    Ok(()) => {},
                    Err(e) => {
                        return Err(e);
                    },
                }
                i += 1;
            }
            proof {
                reveal(Partition::wf);
                assert(commit_views(queue@).len() == queue@.len());
            }
            self.ss_policy.add_commits(queue.len());
            self.seed();
            let edits = match self.take_replay(queue) {
                Ok(n) => n,
                Err(e) => {
                    return Err(e);
                },
            };
            proof {
                reveal(Partition::wf);
            }
            self.ss_policy.add_edits(edits);
        }
        proof {
            reveal(Partition::wf);
        }
        self.ss_num = files.ss_len - 1;
        if !all_history && files.first < files.ss_len - 1 {
            self.ss_policy.require();
        }
        if self.tips.len() > 0 {
            match head {
                Some(h) => {
                    return Ok(h);
                },
                None => {},
            }
        }
        Err(Error::Other("no data loaded"))
    }

    /// Reads the logs of the snapshot `ss` that are there: see `logs_read`.
    fn read_logs(&self, ss: usize) -> (r: Result<Vec<Vec<u8>>, Error>)
        ensures
            logs_read(&self.io, ss, r),
    {
        let mut logs: Vec<Vec<u8>> = Vec::new();
        let cl_len = self.io.ss_cl_len(ss);
        let ghost mut answers: Seq<Option<Vec<u8>>> = Seq::empty();
        let mut cl: usize = 0;
        while cl < cl_len
            invariant
                cl <= cl_len,
                answers.len() == cl,
                logs_answered(&self.io, ss, cl_len, answers),
                logs@ == present(answers),
            decreases cl_len - cl,
        {
            let answer = self.io.read_ss_cl(ss, cl);
            let ghost before = answers;
            match answer {
                Err(e) => {
                    return Err(e);
                },
                Ok(None) => {
                    proof {
                        answers = before.push(None);
                    }
                },
                Ok(Some(bytes)) => {
                    proof {
                        answers = before.push(Some(bytes));
                    }
                    logs.push(bytes);
                },
            }
            proof {
                assert(answers.drop_last() =~= before);
                assert forall|i: int| 0 <= i < answers.len() implies may_give_log(
                    &self.io,
                    ss,
                    i as usize,
                    Ok::<Option<Vec<u8>>, Error>(#[trigger] answers[i]),
                ) by {
                    if i < before.len() {
                        assert(answers[i] == before[i]);
                    }
                }
            }
            cl += 1;
        }
        Ok(logs)
    }

    /// Reads the files that loading needs: all snapshots and logs where
    /// `all_history` is set; where it is not, the latest snapshot that is
    /// there and the logs from there on. Fails where there is no place for
    /// a snapshot, or where the provider of the files fails. See
    /// `files_read`.
    pub fn read_files(&self, all_history: bool) -> (r: Result<LoadedFiles, Error>)
        ensures
            files_read(&self.io, all_history, r),
    {
        let ss_len = self.io.ss_len();
        if ss_len == 0 {
            proof {
                assert(may_count(&self.io, 0));
                assert(read_fails(&self.io, 0, Error::Io("no snapshot files found")));
            }
            return Err(Error::Io("no snapshot files found"));
        }
        let mut first: usize = 0;
        let mut snapshots: Vec<Option<Vec<u8>>> = Vec::new();
        if !all_history {
            let mut num = ss_len - 1;
            loop
                invariant_except_break
                    snapshots@.len() == 0,
                invariant
                    num < ss_len,
                    may_count(&self.io, ss_len),
                    forall|j: usize|
                        num < j < ss_len ==> #[trigger] may_give(
                            &self.io,
                            j,
                            Ok::<Option<Vec<u8>>, Error>(None),
                        ),
                ensures
                    snapshots@.len() == 1,
                    may_give(&self.io, num, Ok::<Option<Vec<u8>>, Error>(snapshots@[0])),
                    snapshots@[0] is Some || num == 0,
                decreases num,
            {
                let answer = self.io.read_ss(num);
                match answer {
                    Err(e) => {
                        proof {
                            assert(may_give(&self.io, num, Err::<Option<Vec<u8>>, Error>(e)));
                            assert(read_fails(&self.io, ss_len, e));
                        }
                        return Err(e);
                    },
                    Ok(Some(bytes)) => {
                        snapshots.push(Some(bytes));
                        break ;
                    },
                    Ok(None) => {},
                }
                if num == 0 {
                    snapshots.push(None);
                    break ;
                }
                num -= 1;
            }
            first = num;
        }
        let mut logs: Vec<Vec<Vec<u8>>> = Vec::new();
        let mut ss = first;
        while ss < ss_len
            invariant
                first <= ss <= ss_len,
                first < ss_len,
                may_count(&self.io, ss_len),
                logs@.len() == ss - first,
                all_history ==> first == 0 && snapshots@.len() == ss - first,
                !all_history ==> 1 <= snapshots@.len() <= ss - first + 1 && (ss > first
                    ==> snapshots@.len() == ss - first),
                !all_history ==> snapshots@[0] is Some || first == 0,
                !all_history ==> forall|j: usize|
                    first < j < ss_len ==> #[trigger] may_give(
                        &self.io,
                        j,
                        Ok::<Option<Vec<u8>>, Error>(None),
                    ),
                !all_history ==> forall|i: int|
                    1 <= i < snapshots@.len() ==> (#[trigger] snapshots@[i]) is None,
                forall|i: int|
                    0 <= i < snapshots@.len() ==> may_give(
                        &self.io,
                        (first + i) as usize,
                        Ok::<Option<Vec<u8>>, Error>(#[trigger] snapshots@[i]),
                    ),
                forall|i: int|
                    0 <= i < logs@.len() ==> logs_read(
                        &self.io,
                        (first + i) as usize,
                        Ok::<Vec<Vec<u8>>, Error>(#[trigger] logs@[i]),
                    ),
            decreases ss_len - ss,
        {
            let ghost had = snapshots@;
            if all_history {
                let answer = self.io.read_ss(ss);
                match answer {
                    Err(e) => {
                        proof {
                            assert(may_give(&self.io, ss, Err::<Option<Vec<u8>>, Error>(e)));
                            assert(read_fails(&self.io, ss_len, e));
                        }
                        return Err(e);
                    },
                    Ok(file) => {
                        snapshots.push(file);
                    },
                }
            } else if ss > first {
                proof {
                    assert(may_give(&self.io, ss, Ok::<Option<Vec<u8>>, Error>(None)));
                }
                snapshots.push(None);
            }
            proof {
                assert forall|i: int| 0 <= i < snapshots@.len() implies may_give(
                    &self.io,
                    (first + i) as usize,
                    Ok::<Option<Vec<u8>>, Error>(#[trigger] snapshots@[i]),
                ) by {
                    if i < had.len() {
                        assert(snapshots@[i] == had[i]);
                    }
                }
                assert forall|i: int| !all_history && 1 <= i < snapshots@.len() implies (
                #[trigger] snapshots@[i]) is None by {
                    if i < had.len() {
                        assert(snapshots@[i] == had[i]);
                    }
                }
            }
            let ghost held = logs@;
            let answer = self.read_logs(ss);
            match answer {
                Err(e) => {
                    proof {
                        assert(logs_read(&self.io, ss, Err::<Vec<Vec<u8>>, Error>(e)));
                        assert(read_fails(&self.io, ss_len, e));
                    }
                    return Err(e);
                },
                Ok(l) => {
                    logs.push(l);
                },
            }
            proof {
                assert forall|i: int| 0 <= i < logs@.len() implies logs_read(
                    &self.io,
                    (first + i) as usize,
                    Ok::<Vec<Vec<u8>>, Error>(#[trigger] logs@[i]),
                ) by {
                    if i < held.len() {
                        assert(logs@[i] == held[i]);
                    }
                }
            }
            ss += 1;
        }
        Ok(LoadedFiles { ss_len: ss_len, first: first, snapshots: snapshots, logs: logs })
    }

    /// Loads the states of the partition from its files: all snapshots and
    /// logs where `all_history` is set, the latest snapshot that is there
    /// and the logs from there on where it is not. The files are read with
    /// `read_files`, and what was read is loaded with `load_files`. Gives
    /// the header of the file that was read last. Fails, and leaves the
    /// partition as it is, where the reading fails; fails where the loading
    /// of what was read does.
    pub fn load(&mut self, all_history: bool) -> (r: Result<FileHeader, Error>)
        requires
            old(self).wf(),
        ensures
            final(self).wf(),
            final(self).io == old(self).io,
            final(self)@.part_id == old(self)@.part_id,
            final(self)@.unsaved == old(self)@.unsaved,
            match r {
                Ok(head) => final(self)@.tips.len() > 0 && exists|files: LoadedFiles| #[trigger]
                    files_read(&old(self).io, all_history, Ok::<LoadedFiles, Error>(files))
                        && files_loaded(old(self)@, files@, all_history) == (
                        Ok::<HeaderView, Error>(head@),
                        final(self)@,
                    ),
                Err(e) => (final(self)@ == old(self)@ && files_read(
                    &old(self).io,
                    all_history,
                    Err::<LoadedFiles, Error>(e),
                )) || exists|files: LoadedFiles| #[trigger]
                    files_read(&old(self).io, all_history, Ok::<LoadedFiles, Error>(files))
                        && files_loaded(old(self)@, files@, all_history).0 == Err::<
                        HeaderView,
                        Error,
                    >(e),
            },
    {
        let files = match self.read_files(all_history) {
            Ok(f) => f,
            Err(e) => {
                return Err(e);
            },
        };
        let ghost was = self@;
        let r = self.load_files(&files, all_history);
        proof {
            assert(files_read(&old(self).io, all_history, Ok::<LoadedFiles, Error>(files)));
            if r is Ok {
                assert(self@ == files_loaded(was, files@, all_history).1);
            }
        }
        r
    }
}

} // verus!
