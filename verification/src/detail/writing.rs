//! Writing the files of a partition: the commits that wait go to a new log,
//! and a snapshot of the tip is written when one is due. What the provider
//! of the files is asked, and what is made of its answers, is stated over
//! the calls that its own contract admits. The name of the repository is
//! read from the files where it is not known.

use vstd::prelude::*;
use crate::commit::Commit;
use crate::commit::CommitView;
use crate::commit::commit_views;
use crate::detail::asking::Asked;
use crate::detail::asking::Call;
use crate::detail::asking::asked_at;
use crate::detail::asking::found;
use crate::detail::asking::is_search;
use crate::detail::asking::search_limit;
use crate::detail::index::index_get;
use crate::detail::loading::may_count;
use crate::detail::loading::may_count_logs;
use crate::detail::loading::may_give;
use crate::detail::part::PartIO;
use crate::detail::part::PartView;
use crate::detail::part::Partition;
use crate::detail::part::head_checked;
use crate::detail::part::head_of;
use crate::detail::part::name_fault;
use crate::detail::part::snapshot_file_bytes;
use crate::detail::part::verify_head;
use crate::error::Error;
use crate::error::TipError;
use crate::readwrite::commitlog::commit_bytes;
use crate::readwrite::commitlog::start_log;
use crate::readwrite::commitlog::write_commit;
use crate::readwrite::header::FileHeader;
use crate::readwrite::header::FileType;
use crate::readwrite::header::HeaderView;
use crate::readwrite::header::UserData;
use crate::readwrite::header::UserView;
use crate::readwrite::header::copy_user;
use crate::readwrite::header::header_bytes;
use crate::readwrite::header::name_ok;
use crate::readwrite::header::parse_header;
use crate::readwrite::header::read_head;
use crate::readwrite::header::user_views;
use crate::readwrite::header::write_head;
use crate::readwrite::snapshot::snapshot_bytes;
use crate::readwrite::snapshot::write_snapshot;
use vstd::string::StringSliceAdditionalSpecFns;
use vstd::utf8::encode_utf8;

verus! {

/// Whether `now` is what is left of `was` when commits have been taken from
/// its front.
pub open spec fn is_rest(now: Seq<CommitView>, was: Seq<CommitView>) -> bool {
    exists|k: int| 0 <= k <= was.len() && now == #[trigger] was.subrange(k, was.len() as int)
}

/// The error for a snapshot whose number would be too high.
pub open spec fn snapshot_high() -> Error {
    Error::Other("Snapshot number too high")
}

/// Whether `r` and the partition `w` are what writing a snapshot makes of
/// the partition `v` on the provider `io`, where the day is `date`, the
/// provider goes through `states` and is called as `calls` say. Without
/// exactly one tip, with a name that is not allowed and with the largest
/// number as the number of the current snapshot, the result is an error
/// and the provider is not asked.
/// Else the provider is asked to make a snapshot of the header and the
/// snapshot of the tip, under the number above that of the current
/// snapshot, then the next, and so on up to the first that it makes. That
/// number is then the number of the current snapshot, and nothing is
/// counted any more. Where the provider fails, or the search goes above the
/// limit, the result is an error and the partition is as it was.
pub open spec fn snapshot_saved<IO: PartIO>(
    io: IO,
    v: PartView,
    user: Seq<UserView>,
    date: Seq<u8>,
    states: Seq<IO>,
    calls: Seq<Call>,
    r: Result<(), Error>,
    w: PartView,
) -> bool {
    &&& states.len() == calls.len() + 1
    &&& states[0] == io
    &&& if v.tips.len() == 0 {
        calls.len() == 0 && w == v && r == Err::<(), Error>(Error::Tip(TipError::NotReady))
    } else if v.tips.len() > 1 {
        calls.len() == 0 && w == v && r == Err::<(), Error>(Error::Tip(TipError::MergeRequired))
    } else if !name_ok(encode_utf8(v.repo_name)) {
        calls.len() == 0 && w == v && r == Err::<(), Error>(name_fault())
    } else if v.ss_num == usize::MAX {
        calls.len() == 0 && w == v && r == Err::<(), Error>(snapshot_high())
    } else {
        &&& v.ss_num < usize::MAX
        &&& date.len() == 8
        &&& is_search(
            calls,
            None,
            v.ss_num + 1,
            snapshot_file_bytes(
                head_of(FileType::Snapshot(0), v.repo_name, v.part_id, user),
                v.states[v.tips[0]].elts,
                date,
            ),
        )
        &&& match found(calls, v.ss_num + 1, snapshot_high()) {
            Ok(n) => r is Ok && w == (PartView { ss_num: n, policy: v.policy.cleared(), ..v }),
            Err(e) => r == Err::<(), Error>(e) && w == v,
        }
    }
}

/// The error for a log whose number would be too high.
pub open spec fn log_high() -> Error {
    Error::Other("Commit log number too high")
}

/// The error for a log that is not there when a commit is appended to it.
pub open spec fn log_gone() -> Error {
    Error::Io("the commit log is not there any more")
}

/// The data that start a log file of the partition `v`: the header and the
/// marker of a log.
pub open spec fn log_start_bytes(v: PartView, user: Seq<UserView>) -> Seq<u8> {
    header_bytes(head_of(FileType::CommitLog(0), v.repo_name, v.part_id, user))
        + crate::readwrite::commitlog::LOG_START@
}

/// Whether `r` is what opening a new log for the snapshot `ss` gives, where
/// the provider `io` says that `first` is the first number that may be
/// free, goes through `states` and is called as `calls` say: the provider
/// is asked to make the log with the number `first` of `data`, then the
/// next, and so on up to the first that it makes, whose number is the
/// result. Where the provider fails, or the search goes above the limit,
/// the result is an error.
pub open spec fn log_opened<IO: PartIO>(
    io: IO,
    ss: usize,
    data: Seq<u8>,
    first: usize,
    states: Seq<IO>,
    calls: Seq<Call>,
    r: Result<usize, Error>,
) -> bool {
    &&& states.len() == calls.len() + 1
    &&& states[0] == io
    &&& may_count_logs(&io, ss, first)
    &&& is_search(calls, Some(ss), first as int, data)
    &&& r == found(calls, first as int, log_high())
}

/// Whether `calls` append the commits `waiting` to the log `cl` of the
/// snapshot `ss`, from the first on and one commit with each call, up to
/// the last commit or to the first call that does not append.
pub open spec fn is_appending(waiting: Seq<CommitView>, ss: usize, cl: usize, calls: Seq<Call>) -> bool {
    &&& calls.len() <= waiting.len()
    &&& forall|j: int|
        0 <= j < calls.len() ==> (#[trigger] calls[j]).asked == Asked::Append(ss, cl)
            && calls[j].data == commit_bytes(waiting[j])
    &&& forall|j: int|
        0 <= j < calls.len() - 1 ==> (#[trigger] calls[j]).answer == Ok::<bool, Error>(true)
    &&& calls.len() < waiting.len() ==> calls.len() > 0 && calls.last().answer != Ok::<
        bool,
        Error,
    >(true)
}

/// How the appending ends: with the error of the provider, with an error
/// where the log is not there any more, or well.
pub open spec fn append_end(calls: Seq<Call>) -> Result<(), Error> {
    if calls.len() == 0 {
        Ok(())
    } else {
        match calls.last().answer {
            Ok(true) => Ok(()),
            Ok(false) => Err(log_gone()),
            Err(e) => Err(e),
        }
    }
}

/// The commits that wait after the appending: all from the one on that was
/// not appended, or none.
pub open spec fn waiting_after(waiting: Seq<CommitView>, calls: Seq<Call>) -> Seq<CommitView> {
    if append_end(calls) is Ok {
        Seq::empty()
    } else {
        waiting.subrange(calls.len() - 1, waiting.len() as int)
    }
}

/// Whether `r` and the partition `w` are what appending the commits that
/// wait makes of the partition `v`, where the provider goes through
/// `states` and is called as `calls` say: see `is_appending`.
pub open spec fn appended<IO: PartIO>(
    io: IO,
    v: PartView,
    cl: usize,
    states: Seq<IO>,
    calls: Seq<Call>,
    r: Result<(), Error>,
    w: PartView,
) -> bool {
    &&& states.len() == calls.len() + 1
    &&& states[0] == io
    &&& is_appending(v.unsaved, v.ss_num, cl, calls)
    &&& r == append_end(calls)
    &&& w == (PartView { unsaved: waiting_after(v.unsaved, calls), ..v })
}

/// Whether `r` and the partition `w` are what the end of a writing makes of
/// the partition `v`: where `fast` is not set, the partition has one tip
/// and a snapshot is due, a snapshot is written as `snapshot_saved` says;
/// else the provider is not asked. Without an error the result tells
/// whether commits were written before, which `flag` says.
pub open spec fn finished<IO: PartIO>(
    io: IO,
    v: PartView,
    fast: bool,
    user: Seq<UserView>,
    date: Seq<u8>,
    states: Seq<IO>,
    calls: Seq<Call>,
    r: Result<bool, Error>,
    w: PartView,
    flag: bool,
) -> bool {
    if fast || v.tips.len() != 1 || !v.policy.due() {
        states.len() == 1 && calls.len() == 0 && states[0] == io && w == v && r == Ok::<
            bool,
            Error,
        >(flag)
    } else {
        snapshot_saved(
            io,
            v,
            user,
            date,
            states,
            calls,
            match r {
                Ok(_) => Ok(()),
                Err(e) => Err(e),
            },
            w,
        ) && (r matches Ok(b) ==> b == flag)
    }
}

/// Whether `r` and the partition `w` are what writing makes of the
/// partition `v` on the provider `io`, where the provider goes through
/// `states` and is called as `calls` say: the first `a` calls open a log,
/// the calls up to the `b`-th append to it, and the rest write a snapshot.
/// Where commits wait, a log is opened as `log_opened` says, with the
/// header and the marker of a log, and the commits are appended to it as
/// `is_appending` says, oldest first. An error ends the writing, the
/// commits from the one on that was not appended go on waiting, and nothing
/// else changes. A name that is not allowed is an error, and the provider
/// is not asked. The writing ends as `finished` says.
pub open spec fn written<IO: PartIO>(
    io: IO,
    v: PartView,
    fast: bool,
    user: Seq<UserView>,
    date: Seq<u8>,
    first: usize,
    a: int,
    b: int,
    states: Seq<IO>,
    calls: Seq<Call>,
    r: Result<bool, Error>,
    w: PartView,
) -> bool {
    let n = v.unsaved.len();
    let opening = calls.subrange(0, a);
    let appends = calls.subrange(a, b);
    &&& states.len() == calls.len() + 1
    &&& states[0] == io
    &&& 0 <= a <= b <= calls.len()
    &&& if n == 0 {
        a == 0 && b == 0 && finished(io, v, fast, user, date, states, calls, r, w, false)
    } else if !name_ok(encode_utf8(v.repo_name)) {
        calls.len() == 0 && w == v && r == Err::<bool, Error>(name_fault())
    } else {
        &&& may_count_logs(&io, v.ss_num, first)
        &&& is_search(opening, Some(v.ss_num), first as int, log_start_bytes(v, user))
        &&& match found(opening, first as int, log_high()) {
            Err(e) => b == a && a == calls.len() && w == v && r == Err::<bool, Error>(e),
            Ok(cl) => {
                &&& is_appending(v.unsaved, v.ss_num, cl, appends)
                &&& match append_end(appends) {
                    Err(e) => b == calls.len() && r == Err::<bool, Error>(e) && w == (PartView {
                        unsaved: waiting_after(v.unsaved, appends),
                        ..v
                    }),
                    Ok(_) => finished(
                        states[b],
                        PartView { unsaved: Seq::empty(), ..v },
                        fast,
                        user,
                        date,
                        states.subrange(b, states.len() as int),
                        calls.subrange(b, calls.len() as int),
                        r,
                        w,
                        true,
                    ),
                }
            },
        }
    }
}

/// A writing that fails to open a log is a writing.
pub proof fn lemma_written_unopened<IO: PartIO>(
    io: IO,
    v: PartView,
    fast: bool,
    user: Seq<UserView>,
    date: Seq<u8>,
    first: usize,
    states: Seq<IO>,
    calls: Seq<Call>,
    e: Error,
)
    requires
        v.unsaved.len() > 0,
        name_ok(encode_utf8(v.repo_name)),
        log_opened(
            io,
            v.ss_num,
            log_start_bytes(v, user),
            first,
            states,
            calls,
            Err::<usize, Error>(e),
        ),
    ensures
        written(
            io,
            v,
            fast,
            user,
            date,
            first,
            calls.len() as int,
            calls.len() as int,
            states,
            calls,
            Err::<bool, Error>(e),
            v,
        ),
{
    assert(calls.subrange(0, calls.len() as int) =~= calls);
}

/// A log that is opened, commits that are appended to it and the end of a
/// writing make a writing.
pub proof fn lemma_written_joined<IO: PartIO>(
    io: IO,
    v: PartView,
    fast: bool,
    user: Seq<UserView>,
    date: Seq<u8>,
    first: usize,
    cl: usize,
    sa: Seq<IO>,
    ca: Seq<Call>,
    sb: Seq<IO>,
    cb: Seq<Call>,
    sc: Seq<IO>,
    cc: Seq<Call>,
    wa: PartView,
    r: Result<bool, Error>,
    w: PartView,
)
    requires
        v.unsaved.len() > 0,
        name_ok(encode_utf8(v.repo_name)),
        log_opened(
            io,
            v.ss_num,
            log_start_bytes(v, user),
            first,
            sa,
            ca,
            Ok::<usize, Error>(cl),
        ),
        appended(sa.last(), v, cl, sb, cb, append_end(cb), wa),
        sc.len() == cc.len() + 1,
        sc[0] == sb.last(),
        match append_end(cb) {
            Err(e) => r == Err::<bool, Error>(e) && w == wa && cc.len() == 0,
            Ok(_) => finished(sb.last(), wa, fast, user, date, sc, cc, r, w, true),
        },
    ensures
        written(
            io,
            v,
            fast,
            user,
            date,
            first,
            ca.len() as int,
            (ca.len() + cb.len()) as int,
            sa + sb.drop_first() + sc.drop_first(),
            ca + cb + cc,
            r,
            w,
        ),
{
    let states = sa + sb.drop_first() + sc.drop_first();
    let calls = ca + cb + cc;
    let a = ca.len() as int;
    let b = (ca.len() + cb.len()) as int;
    assert(calls.subrange(0, a) =~= ca);
    assert(calls.subrange(a, b) =~= cb);
    assert(calls.subrange(b, calls.len() as int) =~= cc);
    assert(states.subrange(b, states.len() as int) =~= sc);
    assert(states[b] == sb.last());
    assert(states[0] == io);
}

/// What the name of the repository is read as from the data of a
/// snapshot file, and the name that the partition knows then: the header
/// of the file is read and checked as `head_checked` says.
pub open spec fn name_taken(v: PartView, bytes: Seq<u8>) -> (Result<Seq<char>, Error>, Seq<char>) {
    match parse_header(bytes) {
        Err(e) => (Err(Error::Read(e)), v.repo_name),
        Ok(h) => {
            let checked = head_checked(h.0.name, h.0.part_id, v.repo_name, v.part_id);
            (
                match checked.0 {
                    Ok(_) => Ok(checked.1),
                    Err(e) => Err(e),
                },
                checked.1,
            )
        },
    }
}

/// Whether `r` and the name `known` are what asking for the name of the
/// repository gives for the partition `v` on the provider `io`. A name
/// that is known is the result. Else the provider says that it has `n`
/// places for snapshots, and is asked for the snapshots from the latest
/// down to the place `stop`, the first whose snapshot is there or where it
/// fails; `answer` is what it gives there. From the data of that snapshot
/// the name is read as `name_taken` says. Where no snapshot is there, down
/// to the first place, the result is an error.
pub open spec fn name_read<IO: PartIO>(
    io: &IO,
    v: PartView,
    n: usize,
    stop: int,
    answer: Result<Option<Vec<u8>>, Error>,
    r: Result<Seq<char>, Error>,
    known: Seq<char>,
) -> bool {
    if encode_utf8(v.repo_name).len() > 0 {
        r == Ok::<Seq<char>, Error>(v.repo_name) && known == v.repo_name
    } else {
        &&& may_count(io, n)
        &&& -1 <= stop < n
        &&& forall|j: usize|
            stop < j < n ==> #[trigger] may_give(io, j, Ok::<Option<Vec<u8>>, Error>(None))
        &&& if stop < 0 {
            known == v.repo_name && r == Err::<Seq<char>, Error>(
                Error::Other("no snapshot found for first partition"),
            )
        } else {
            &&& may_give(io, stop as usize, answer)
            &&& match answer {
                Err(e) => known == v.repo_name && r == Err::<Seq<char>, Error>(e),
                Ok(None) => false,
                Ok(Some(bytes)) => (r, known) == name_taken(v, bytes@),
            }
        }
    }
}

/// The text of a name that was asked for.
pub open spec fn name_view(r: Result<String, Error>) -> Result<Seq<char>, Error> {
    match r {
        Ok(name) => Ok(name@),
        Err(e) => Err(e),
    }
}

impl<IO: PartIO> Partition<IO> {
    /// The name of the repository. Where it is not known, it is read from
    /// the header of the latest snapshot that is there: see `name_read`.
    pub fn get_repo_name(&mut self) -> (r: Result<String, Error>)
        requires
            old(self).wf(),
        ensures
            final(self).wf(),
            final(self).io == old(self).io,
            final(self)@ == (PartView { repo_name: final(self)@.repo_name, ..old(self)@ }),
            encode_utf8(old(self)@.repo_name).len() > 0 ==> final(self)@ == old(self)@ && (
            r matches Ok(name) && name@ == old(self)@.repo_name),
            r matches Ok(name) ==> name@ == final(self)@.repo_name,
            exists|n: usize, stop: int, answer: Result<Option<Vec<u8>>, Error>| #[trigger]
                name_read(
                    &old(self).io,
                    old(self)@,
                    n,
                    stop,
                    answer,
                    name_view(r),
                    final(self)@.repo_name,
                ),
    {
        let ghost v = self@;
        let ghost unasked: Result<Option<Vec<u8>>, Error> = Ok(None);
        proof {
            reveal(Partition::wf);
        }
        if self.repo_name.as_str().as_bytes().len() > 0 {
            let name = self.repo_name.clone();
            proof {
                assert(name_read(&self.io, v, 0, -1, unasked, name_view(Ok(name)), v.repo_name));
            }
            return Ok(name);
        }
        let n = self.io.ss_len();
        let mut ss = n;
        while ss > 0
            invariant
                self.wf(),
                self.io == old(self).io,
                self@ == old(self)@,
                v == old(self)@,
                encode_utf8(old(self)@.repo_name).len() == 0,
                ss <= n,
                may_count(&self.io, n),
                forall|j: usize|
                    ss <= j < n ==> #[trigger] may_give(
                        &self.io,
                        j,
                        Ok::<Option<Vec<u8>>, Error>(None),
                    ),
            decreases ss,
        {
            ss -= 1;
            let answer = self.io.read_ss(ss);
            match answer {
                Err(e) => {
                    proof {
                        assert(name_read(
                            &self.io,
                            v,
                            n,
                            ss as int,
                            answer,
                            name_view(Err(e)),
                            v.repo_name,
                        ));
                    }
                    return Err(e);
                },
                Ok(None) => {},
                Ok(Some(bytes)) => {
                    let (head, _pos) = match read_head(bytes.as_slice()) {
                        Ok(h) => h,
                        Err(e) => {
                            proof {
                                assert(name_read(
                                    &self.io,
                                    v,
                                    n,
                                    ss as int,
                                    answer,
                                    name_view(Err(e)),
                                    v.repo_name,
                                ));
                            }
                            return Err(e);
                        },
                    };
                    proof {
                        reveal(Partition::wf);
                    }
                    match verify_head(&head, &mut self.repo_name, self.part_id) {
                        Ok(()) => {},
                        Err(e) => {
                            proof {
                                assert(name_read(
                                    &self.io,
                                    v,
                                    n,
                                    ss as int,
                                    answer,
                                    name_view(Err(e)),
                                    self@.repo_name,
                                ));
                            }
                            return Err(e);
                        },
                    }
                    let name = self.repo_name.clone();
                    proof {
                        assert(name_read(
                            &self.io,
                            v,
                            n,
                            ss as int,
                            answer,
                            name_view(Ok(name)),
                            self@.repo_name,
                        ));
                    }
                    return Ok(name);
                },
            }
        }
        proof {
            assert(name_read(
                &self.io,
                v,
                n,
                -1,
                unasked,
                name_view(Err(Error::Other("no snapshot found for first partition"))),
                v.repo_name,
            ));
        }
        Err(Error::Other("no snapshot found for first partition"))
    }

    /// The data of a file that holds a snapshot of the tip: the header with
    /// the name of the repository, the identifier of the partition and the
    /// user data, and the snapshot, with the date of today. Fails where the
    /// name of the repository is not allowed.
    pub fn snapshot_file(&self, user_fields: Vec<UserData>) -> (r: Result<Vec<u8>, Error>)
        requires
            self.wf(),
            self@.tips.len() == 1,
        ensures
            r is Ok <==> name_ok(encode_utf8(self@.repo_name)),
            r is Err ==> r == Err::<Vec<u8>, Error>(name_fault()),
            r matches Ok(bytes) ==> exists|date: Seq<u8>|
                date.len() == 8 && bytes@ == header_bytes(
                    self.file_head(FileType::Snapshot(0), user_views(user_fields@)),
                ) + #[trigger] snapshot_bytes(
                    header_bytes(self.file_head(FileType::Snapshot(0), user_views(user_fields@))),
                    self@.states[self@.tips[0]].elts,
                    date,
                ),
    {
        proof {
            reveal(Partition::wf);
        }
        let header = FileHeader {
            ftype: FileType::Snapshot(0),
            name: self.repo_name.clone(),
            part_id: Some(self.part_id),
            user: user_fields,
        };
        let mut bytes: Vec<u8> = Vec::new();
        match write_head(&header, &mut bytes) {
            Ok(()) => {},
            Err(e) => {
                return Err(e);
            },
        }
        let ghost head = bytes@;
        match index_get(&self.states, &self.tips[0]) {
            Some(state) => match write_snapshot(state, &mut bytes) {
                Ok(()) => {
                    proof {
                        let date = choose|date: Seq<u8>|
                            date.len() == 8 && bytes@ == head + #[trigger] snapshot_bytes(
                                head,
                                state@.elts,
                                date,
                            );
                        assert(bytes@ == head + snapshot_bytes(head, state@.elts, date));
                    }
                    Ok(bytes)
                },
                Err(e) => Err(e),
            },
            None => {
                assert(false);
                Err(Error::Tip(TipError::NotReady))
            },
        }
    }

    /// The header of a file of this partition.
    pub open spec fn file_head(&self, ftype: FileType, user: Seq<UserView>) -> HeaderView {
        HeaderView {
            ftype,
            name: self@.repo_name,
            part_id: Some(self@.part_id),
            user,
        }
    }

    /// The data that start a commit log file: the header with the name of
    /// the repository, the identifier of the partition and the user data,
    /// and the marker of a log. Fails where the name of the repository is
    /// not allowed.
    pub fn log_file_start(&self, user_fields: Vec<UserData>) -> (r: Result<Vec<u8>, Error>)
        ensures
            r is Ok <==> name_ok(encode_utf8(self@.repo_name)),
            r matches Ok(bytes) ==> bytes@ == header_bytes(
                self.file_head(FileType::CommitLog(0), user_views(user_fields@)),
            ) + crate::readwrite::commitlog::LOG_START@,
            r matches Err(e) ==> e == name_fault(),
    {
        let header = FileHeader {
            ftype: FileType::CommitLog(0),
            name: self.repo_name.clone(),
            part_id: Some(self.part_id),
            user: user_fields,
        };
        let mut start: Vec<u8> = Vec::new();
        match write_head(&header, &mut start) {
            Ok(()) => {},
            Err(e) => {
                return Err(e);
            },
        }
        match start_log(&mut start) {
            Ok(()) => Ok(start),
            Err(e) => Err(e),
        }
    }

    /// Writes a snapshot of the tip: see `write_snapshot`. Gives with the
    /// result the date, the states that the provider went through and the
    /// calls that were made.
    fn save_snapshot(&mut self, user_fields: Vec<UserData>) -> (out: (
        Result<(), Error>,
        Ghost<Seq<u8>>,
        Ghost<Seq<IO>>,
        Ghost<Seq<Call>>,
    ))
        requires
            old(self).wf(),
        ensures
            final(self).wf(),
            final(self)@ == (PartView {
                ss_num: final(self)@.ss_num,
                policy: final(self)@.policy,
                ..old(self)@
            }),
            snapshot_saved(
                old(self).io,
                old(self)@,
                user_views(user_fields@),
                out.1@,
                out.2@,
                out.3@,
                out.0,
                final(self)@,
            ),
            out.2@.last() == final(self).io,
            forall|i: int|
                #![trigger out.3@[i]]
                0 <= i < out.3@.len() ==> exists|m: &mut IO, data: &[u8]|
                    #![auto]
                    *m == out.2@[i] && *final(m) == out.2@[i + 1] && data@ == out.3@[i].data
                        && match out.3@[i].asked {
                        Asked::Snapshot(ss) => call_ensures(
                            IO::new_ss,
                            (m, ss, data),
                            out.3@[i].answer,
                        ),
                        Asked::Log(ss, cl) => call_ensures(
                            IO::new_ss_cl,
                            (m, ss, cl, data),
                            out.3@[i].answer,
                        ),
                        Asked::Append(ss, cl) => call_ensures(
                            IO::append_ss_cl,
                            (m, ss, cl, data),
                            out.3@[i].answer,
                        ),
                    },
    {
        let ghost user = user_views(user_fields@);
        let ghost v = self@;
        let ghost io0 = self.io;
        let ghost none = Seq::<Call>::empty();
        let ghost only: Seq<IO> = seq![io0];
        match self.tip_key() {
            Ok(_) => {},
            Err(e) => {
                proof {
                    assert(snapshot_saved(
                        io0,
                        v,
                        user,
                        Seq::empty(),
                        seq![io0],
                        none,
                        Err::<(), Error>(Error::Tip(e)),
                        v,
                    ));
                }
                return (Err(Error::Tip(e)), Ghost(Seq::empty()), Ghost(only), Ghost(none));
            },
        }
        let bytes = match self.snapshot_file(user_fields) {
            Ok(b) => b,
            Err(e) => {
                proof {
                    assert(snapshot_saved(
                        io0,
                        v,
                        user,
                        Seq::empty(),
                        seq![io0],
                        none,
                        Err::<(), Error>(e),
                        v,
                    ));
                }
                return (Err(e), Ghost(Seq::empty()), Ghost(only), Ghost(none));
            },
        };
        let ghost head = head_of(FileType::Snapshot(0), v.repo_name, v.part_id, user);
        let ghost date = choose|date: Seq<u8>|
            date.len() == 8 && bytes@ == header_bytes(head) + #[trigger] snapshot_bytes(
                header_bytes(head),
                v.states[v.tips[0]].elts,
                date,
            );
        if self.ss_num == usize::MAX {
            proof {
                assert(snapshot_saved(
                    io0,
                    v,
                    user,
                    Seq::empty(),
                    seq![io0],
                    none,
                    Err::<(), Error>(snapshot_high()),
                    v,
                ));
            }
            return (
                Err(Error::Other("Snapshot number too high")),
                Ghost(Seq::empty()),
                Ghost(only),
                Ghost(none),
            );
        }
        let mut ss_num = self.ss_num + 1;
        let ghost mut states: Seq<IO> = seq![io0];
        let ghost mut calls: Seq<Call> = Seq::empty();
        loop
            invariant
                self.wf(),
                self@ == old(self)@,
                v == old(self)@,
                io0 == old(self).io,
                user == user_views(user_fields@),
                old(self)@.tips.len() == 1,
                name_ok(encode_utf8(v.repo_name)),
                v.ss_num < usize::MAX,
                ss_num == v.ss_num + 1 + calls.len(),
                date.len() == 8,
                bytes@ == snapshot_file_bytes(head, v.states[v.tips[0]].elts, date),
                head == head_of(FileType::Snapshot(0), v.repo_name, v.part_id, user),
                states.len() == calls.len() + 1,
                states[0] == io0,
                states.last() == self.io,
                forall|i: int|
                    0 <= i < calls.len() ==> (#[trigger] calls[i]).asked == Asked::Snapshot(
                        (v.ss_num + 1 + i) as usize,
                    ) && calls[i].data == bytes@ && calls[i].answer == Ok::<bool, Error>(false)
                        && v.ss_num + 1 + i <= crate::detail::asking::search_limit(),
                forall|i: int|
                    #![trigger calls[i]]
                    0 <= i < calls.len() ==> exists|m: &mut IO, data: &[u8]|
                        #![auto]
                        *m == states[i] && *final(m) == states[i + 1] && data@ == calls[i].data
                            && match calls[i].asked {
                            Asked::Snapshot(ss) => call_ensures(
                                IO::new_ss,
                                (m, ss, data),
                                calls[i].answer,
                            ),
                            Asked::Log(ss, cl) => call_ensures(
                                IO::new_ss_cl,
                                (m, ss, cl, data),
                                calls[i].answer,
                            ),
                            Asked::Append(ss, cl) => call_ensures(
                                IO::append_ss_cl,
                                (m, ss, cl, data),
                                calls[i].answer,
                            ),
                        },
            decreases 1_000_002 - ss_num,
        {
            proof {
                reveal(Partition::wf);
            }
            let ghost was = states;
            let ghost said = calls;
            let ghost before = self.io;
            let answer = self.io.new_ss(ss_num, bytes.as_slice());
            proof {
                calls = said.push(Call { asked: Asked::Snapshot(ss_num), data: bytes@, answer });
                states = was.push(self.io);
                assert forall|i: int| #![trigger calls[i]] 0 <= i < calls.len() implies exists|
                    m: &mut IO,
                    data: &[u8],
                |
                    #![auto]
                    *m == states[i] && *final(m) == states[i + 1] && data@ == calls[i].data
                        && match calls[i].asked {
                        Asked::Snapshot(ss) => call_ensures(
                            IO::new_ss,
                            (m, ss, data),
                            calls[i].answer,
                        ),
                        Asked::Log(ss, cl) => call_ensures(
                            IO::new_ss_cl,
                            (m, ss, cl, data),
                            calls[i].answer,
                        ),
                        Asked::Append(ss, cl) => call_ensures(
                            IO::append_ss_cl,
                            (m, ss, cl, data),
                            calls[i].answer,
                        ),
                    } by {
                    if i < said.len() {
                        assert(calls[i] == said[i]);
                        assert(states[i] == was[i] && states[i + 1] == was[i + 1]);
                    } else {
                        assert(exists|m: &mut IO, data: &[u8]|
                            #![auto]
                            *m == before && *final(m) == self.io && data@ == bytes@ && call_ensures(
                                IO::new_ss,
                                (m, ss_num, data),
                                answer,
                            ));
                    }
                }
                assert forall|i: int| 0 <= i < calls.len() implies (#[trigger] calls[i]).asked
                    == crate::detail::asking::asked_at(None, (v.ss_num + 1 + i) as usize)
                    && calls[i].data == bytes@ by {
                    if i < said.len() {
                        assert(calls[i] == said[i]);
                    }
                }
                assert forall|i: int| 0 <= i < calls.len() - 1 implies (#[trigger] calls[i]).answer
                    == Ok::<bool, Error>(false) && v.ss_num + 1 + i
                    <= crate::detail::asking::search_limit() by {
                    assert(calls[i] == said[i]);
                }
            }
            match answer {
                Err(e) => {
                    proof {
                        assert(snapshot_saved(
                            io0,
                            v,
                            user,
                            date,
                            states,
                            calls,
                            Err::<(), Error>(e),
                            v,
                        ));
                    }
                    return (Err(e), Ghost(date), Ghost(states), Ghost(calls));
                },
                Ok(true) => {
                    proof {
                        reveal(Partition::wf);
                    }
                    self.ss_num = ss_num;
                    self.ss_policy.reset();
                    proof {
                        assert(snapshot_saved(
                            io0,
                            v,
                            user,
                            date,
                            states,
                            calls,
                            Ok::<(), Error>(()),
                            self@,
                        ));
                    }
                    return (Ok(()), Ghost(date), Ghost(states), Ghost(calls));
                },
                Ok(false) => {
                    if ss_num > 1000_000 {
                        proof {
                            assert(snapshot_saved(
                                io0,
                                v,
                                user,
                                date,
                                states,
                                calls,
                                Err::<(), Error>(snapshot_high()),
                                v,
                            ));
                        }
                        return (
                            Err(Error::Other("Snapshot number too high")),
                            Ghost(date),
                            Ghost(states),
                            Ghost(calls),
                        );
                    }
                    ss_num += 1;
                },
            }
        }
    }

    /// Writes a snapshot of the tip under the first free number above that
    /// of the current snapshot. Fails where the partition is not ready. See
    /// `snapshot_saved`; every call of the provider is one that its own
    /// contract admits.
    pub fn write_snapshot(&mut self, user_fields: Vec<UserData>) -> (r: Result<(), Error>)
        requires
            old(self).wf(),
        ensures
            final(self).wf(),
            final(self)@ == (PartView {
                ss_num: final(self)@.ss_num,
                policy: final(self)@.policy,
                ..old(self)@
            }),
            old(self)@.tips.len() == 0 ==> r == Err::<(), Error>(Error::Tip(TipError::NotReady)),
            old(self)@.tips.len() > 1 ==> r == Err::<(), Error>(
                Error::Tip(TipError::MergeRequired),
            ),
            old(self)@.tips.len() != 1 ==> final(self).io == old(self).io,
            r is Ok ==> final(self)@.ss_num > old(self)@.ss_num
                && final(self)@.policy == old(self)@.policy.cleared(),
            r is Err ==> final(self)@ == old(self)@,
            exists|date: Seq<u8>, states: Seq<IO>, calls: Seq<Call>| #[trigger]
                snapshot_saved(
                    old(self).io,
                    old(self)@,
                    user_views(user_fields@),
                    date,
                    states,
                    calls,
                    r,
                    final(self)@,
                ) && states.last() == final(self).io && forall|i: int|
                    #![trigger calls[i]]
                    0 <= i < calls.len() ==> exists|m: &mut IO, data: &[u8]|
                        #![auto]
                        *m == states[i] && *final(m) == states[i + 1] && data@ == calls[i].data
                            && match calls[i].asked {
                            Asked::Snapshot(ss) => call_ensures(
                                IO::new_ss,
                                (m, ss, data),
                                calls[i].answer,
                            ),
                            Asked::Log(ss, cl) => call_ensures(
                                IO::new_ss_cl,
                                (m, ss, cl, data),
                                calls[i].answer,
                            ),
                            Asked::Append(ss, cl) => call_ensures(
                                IO::append_ss_cl,
                                (m, ss, cl, data),
                                calls[i].answer,
                            ),
                        },
    {
        let out = self.save_snapshot(user_fields);
        proof {
            assert(snapshot_saved(
                old(self).io,
                old(self)@,
                user_views(user_fields@),
                out.1@,
                out.2@,
                out.3@,
                out.0,
                self@,
            ));
        }
        out.0
    }

    /// Opens a new log for the current snapshot, with the data `start`:
    /// see `log_opened`. Gives the number of the log, and with it the first
    /// number that was tried, the states that the provider went through and
    /// the calls that were made.
    fn open_log(&mut self, start: &Vec<u8>) -> (out: (
        Result<usize, Error>,
        Ghost<usize>,
        Ghost<Seq<IO>>,
        Ghost<Seq<Call>>,
    ))
        requires
            old(self).wf(),
        ensures
            final(self).wf(),
            final(self)@ == old(self)@,
            log_opened(old(self).io, old(self)@.ss_num, start@, out.1@, out.2@, out.3@, out.0),
            out.2@.last() == final(self).io,
            forall|i: int|
                #![trigger out.3@[i]]
                0 <= i < out.3@.len() ==> exists|m: &mut IO, data: &[u8]|
                    #![auto]
                    *m == out.2@[i] && *final(m) == out.2@[i + 1] && data@ == out.3@[i].data
                        && match out.3@[i].asked {
                        Asked::Snapshot(ss) => call_ensures(
                            IO::new_ss,
                            (m, ss, data),
                            out.3@[i].answer,
                        ),
                        Asked::Log(ss, cl) => call_ensures(
                            IO::new_ss_cl,
                            (m, ss, cl, data),
                            out.3@[i].answer,
                        ),
                        Asked::Append(ss, cl) => call_ensures(
                            IO::append_ss_cl,
                            (m, ss, cl, data),
                            out.3@[i].answer,
                        ),
                    },
    {
        let ghost io0 = self.io;
        let ghost ss = self.ss_num;
        let ghost handed = start@;
        let first = self.io.ss_cl_len(self.ss_num);
        let mut cl_num = first;
        let ghost mut states: Seq<IO> = seq![io0];
        let ghost mut calls: Seq<Call> = Seq::empty();
        loop
            invariant
                self.wf(),
                self@ == old(self)@,
                io0 == old(self).io,
                ss == old(self)@.ss_num,
                ss == self.ss_num,
                handed == start@,
                may_count_logs(&io0, ss, first),
                cl_num == first + calls.len(),
                states.len() == calls.len() + 1,
                states[0] == io0,
                states.last() == self.io,
                forall|i: int|
                    0 <= i < calls.len() ==> (#[trigger] calls[i]).asked == Asked::Log(
                        ss,
                        (first + i) as usize,
                    ) && calls[i].data == handed && calls[i].answer == Ok::<bool, Error>(false)
                        && first + i <= search_limit(),
                forall|i: int|
                    #![trigger calls[i]]
                    0 <= i < calls.len() ==> exists|m: &mut IO, data: &[u8]|
                        #![auto]
                        *m == states[i] && *final(m) == states[i + 1] && data@ == calls[i].data
                            && match calls[i].asked {
                            Asked::Snapshot(ss) => call_ensures(
                                IO::new_ss,
                                (m, ss, data),
                                calls[i].answer,
                            ),
                            Asked::Log(ss, cl) => call_ensures(
                                IO::new_ss_cl,
                                (m, ss, cl, data),
                                calls[i].answer,
                            ),
                            Asked::Append(ss, cl) => call_ensures(
                                IO::append_ss_cl,
                                (m, ss, cl, data),
                                calls[i].answer,
                            ),
                        },
            decreases 1_000_002 - cl_num,
        {
            proof {
                reveal(Partition::wf);
            }
            let ghost was = states;
            let ghost said = calls;
            let ghost before = self.io;
            let answer = self.io.new_ss_cl(self.ss_num, cl_num, start.as_slice());
            proof {
                calls = said.push(Call { asked: Asked::Log(ss, cl_num), data: handed, answer });
                states = was.push(self.io);
                assert forall|i: int| #![trigger calls[i]] 0 <= i < calls.len() implies exists|
                    m: &mut IO,
                    data: &[u8],
                |
                    #![auto]
                    *m == states[i] && *final(m) == states[i + 1] && data@ == calls[i].data
                        && match calls[i].asked {
                        Asked::Snapshot(ss) => call_ensures(
                            IO::new_ss,
                            (m, ss, data),
                            calls[i].answer,
                        ),
                        Asked::Log(ss, cl) => call_ensures(
                            IO::new_ss_cl,
                            (m, ss, cl, data),
                            calls[i].answer,
                        ),
                        Asked::Append(ss, cl) => call_ensures(
                            IO::append_ss_cl,
                            (m, ss, cl, data),
                            calls[i].answer,
                        ),
                    } by {
                    if i < said.len() {
                        assert(calls[i] == said[i]);
                        assert(states[i] == was[i] && states[i + 1] == was[i + 1]);
                    } else {
                        assert(exists|m: &mut IO, data: &[u8]|
                            #![auto]
                            *m == before && *final(m) == self.io && data@ == handed && call_ensures(
                                IO::new_ss_cl,
                                (m, ss, cl_num, data),
                                answer,
                            ));
                    }
                }
                assert forall|i: int| 0 <= i < calls.len() implies (#[trigger] calls[i]).asked
                    == asked_at(Some(ss), (first + i) as usize) && calls[i].data == handed by {
                    if i < said.len() {
                        assert(calls[i] == said[i]);
                    }
                }
                assert forall|i: int| 0 <= i < calls.len() - 1 implies (#[trigger] calls[i]).answer
                    == Ok::<bool, Error>(false) && first + i <= search_limit() by {
                    assert(calls[i] == said[i]);
                }
            }
            match answer {
                Err(e) => {
                    proof {
                        assert(log_opened(
                            io0,
                            ss,
                            handed,
                            first,
                            states,
                            calls,
                            Err::<usize, Error>(e),
                        ));
                    }
                    return (Err(e), Ghost(first), Ghost(states), Ghost(calls));
                },
                Ok(true) => {
                    proof {
                        assert(log_opened(
                            io0,
                            ss,
                            handed,
                            first,
                            states,
                            calls,
                            Ok::<usize, Error>(cl_num),
                        ));
                    }
                    return (Ok(cl_num), Ghost(first), Ghost(states), Ghost(calls));
                },
                Ok(false) => {
                    if cl_num > 1000_000 {
                        proof {
                            assert(log_opened(
                                io0,
                                ss,
                                handed,
                                first,
                                states,
                                calls,
                                Err::<usize, Error>(log_high()),
                            ));
                        }
                        return (
                            Err(Error::Other("Commit log number too high")),
                            Ghost(first),
                            Ghost(states),
                            Ghost(calls),
                        );
                    }
                    cl_num += 1;
                },
            }
        }
    }

    /// Appends the commits that wait to the log `cl_num` of the current
    /// snapshot, oldest first: see `appended`. The commits that were
    /// appended wait no more. Gives with the result the states that the
    /// provider went through and the calls that were made.
    fn append_waiting(&mut self, cl_num: usize) -> (out: (
        Result<(), Error>,
        Ghost<Seq<IO>>,
        Ghost<Seq<Call>>,
    ))
        requires
            old(self).wf(),
        ensures
            final(self).wf(),
            appended(old(self).io, old(self)@, cl_num, out.1@, out.2@, out.0, final(self)@),
            out.1@.last() == final(self).io,
            forall|i: int|
                #![trigger out.2@[i]]
                0 <= i < out.2@.len() ==> exists|m: &mut IO, data: &[u8]|
                    #![auto]
                    *m == out.1@[i] && *final(m) == out.1@[i + 1] && data@ == out.2@[i].data
                        && match out.2@[i].asked {
                        Asked::Snapshot(ss) => call_ensures(
                            IO::new_ss,
                            (m, ss, data),
                            out.2@[i].answer,
                        ),
                        Asked::Log(ss, cl) => call_ensures(
                            IO::new_ss_cl,
                            (m, ss, cl, data),
                            out.2@[i].answer,
                        ),
                        Asked::Append(ss, cl) => call_ensures(
                            IO::append_ss_cl,
                            (m, ss, cl, data),
                            out.2@[i].answer,
                        ),
                    },
    {
        let ghost io0 = self.io;
        let ghost v = self@;
        let ghost n = v.unsaved.len() as int;
        let ghost mut states: Seq<IO> = seq![io0];
        let ghost mut calls: Seq<Call> = Seq::empty();
        proof {
            assert(v.unsaved.subrange(0, n) =~= v.unsaved);
        }
        while self.unsaved.len() > 0
            invariant
                self.wf(),
                v == old(self)@,
                io0 == old(self).io,
                n == v.unsaved.len(),
                self@ == (PartView { unsaved: self@.unsaved, ..v }),
                calls.len() <= n,
                self@.unsaved == v.unsaved.subrange(calls.len() as int, n),
                states.len() == calls.len() + 1,
                states[0] == io0,
                states.last() == self.io,
                forall|j: int|
                    0 <= j < calls.len() ==> (#[trigger] calls[j]).asked == Asked::Append(
                        v.ss_num,
                        cl_num,
                    ) && calls[j].data == commit_bytes(v.unsaved[j]) && calls[j].answer == Ok::<
                        bool,
                        Error,
                    >(true),
                forall|i: int|
                    #![trigger calls[i]]
                    0 <= i < calls.len() ==> exists|m: &mut IO, data: &[u8]|
                        #![auto]
                        *m == states[i] && *final(m) == states[i + 1] && data@ == calls[i].data
                            && match calls[i].asked {
                            Asked::Snapshot(ss) => call_ensures(
                                IO::new_ss,
                                (m, ss, data),
                                calls[i].answer,
                            ),
                            Asked::Log(ss, cl) => call_ensures(
                                IO::new_ss_cl,
                                (m, ss, cl, data),
                                calls[i].answer,
                            ),
                            Asked::Append(ss, cl) => call_ensures(
                                IO::append_ss_cl,
                                (m, ss, cl, data),
                                calls[i].answer,
                            ),
                        },
            decreases self.unsaved@.len(),
        {
            proof {
                reveal(Partition::wf);
                assert(commit_views(self.unsaved@).len() == self.unsaved@.len());
                assert(v.unsaved.subrange(calls.len() as int, n).len() == n - calls.len());
            }
            let mut bytes: Vec<u8> = Vec::new();
            match write_commit(&self.unsaved[0], &mut bytes) {
                Ok(()) => {},
                Err(e) => {
                    assert(false);
                    return (Err(e), Ghost(states), Ghost(calls));
                },
            }
            let ghost k = calls.len() as int;
            let ghost handed = bytes@;
            proof {
                assert(commit_views(self.unsaved@)[0] == self.unsaved@[0]@);
                assert(self@.unsaved[0] == v.unsaved[k]);
                assert(handed =~= commit_bytes(v.unsaved[k]));
            }
            let ghost was = states;
            let ghost said = calls;
            let ghost before = self.io;
            let answer = self.io.append_ss_cl(self.ss_num, cl_num, bytes.as_slice());
            proof {
                calls = said.push(
                    Call { asked: Asked::Append(v.ss_num, cl_num), data: handed, answer },
                );
                states = was.push(self.io);
                assert forall|i: int| #![trigger calls[i]] 0 <= i < calls.len() implies exists|
                    m: &mut IO,
                    data: &[u8],
                |
                    #![auto]
                    *m == states[i] && *final(m) == states[i + 1] && data@ == calls[i].data
                        && match calls[i].asked {
                        Asked::Snapshot(ss) => call_ensures(
                            IO::new_ss,
                            (m, ss, data),
                            calls[i].answer,
                        ),
                        Asked::Log(ss, cl) => call_ensures(
                            IO::new_ss_cl,
                            (m, ss, cl, data),
                            calls[i].answer,
                        ),
                        Asked::Append(ss, cl) => call_ensures(
                            IO::append_ss_cl,
                            (m, ss, cl, data),
                            calls[i].answer,
                        ),
                    } by {
                    if i < said.len() {
                        assert(calls[i] == said[i]);
                        assert(states[i] == was[i] && states[i + 1] == was[i + 1]);
                    } else {
                        assert(exists|m: &mut IO, data: &[u8]|
                            #![auto]
                            *m == before && *final(m) == self.io && data@ == handed && call_ensures(
                                IO::append_ss_cl,
                                (m, v.ss_num, cl_num, data),
                                answer,
                            ));
                    }
                }
                assert forall|j: int| 0 <= j < calls.len() implies (#[trigger] calls[j]).asked
                    == Asked::Append(v.ss_num, cl_num) && calls[j].data == commit_bytes(
                    v.unsaved[j],
                ) by {
                    if j < said.len() {
                        assert(calls[j] == said[j]);
                    }
                }
                assert forall|j: int| 0 <= j < calls.len() - 1 implies (#[trigger] calls[j]).answer
                    == Ok::<bool, Error>(true) by {
                    assert(calls[j] == said[j]);
                }
            }
            match answer {
                Err(e) => {
                    proof {
                        assert(appended(
                            io0,
                            v,
                            cl_num,
                            states,
                            calls,
                            Err::<(), Error>(e),
                            self@,
                        ));
                    }
                    return (Err(e), Ghost(states), Ghost(calls));
                },
                Ok(false) => {
                    proof {
                        assert(appended(
                            io0,
                            v,
                            cl_num,
                            states,
                            calls,
                            Err::<(), Error>(log_gone()),
                            self@,
                        ));
                    }
                    return (
                        Err(Error::Io("the commit log is not there any more")),
                        Ghost(states),
                        Ghost(calls),
                    );
                },
                Ok(true) => {},
            }
            let ghost held = self.unsaved@;
            let _ = self.unsaved.pop_front();
            proof {
                assert(commit_views(held).len() == held.len());
                assert(commit_views(self.unsaved@) =~= commit_views(held).subrange(
                    1,
                    held.len() as int,
                ));
                assert(commit_views(held).subrange(1, held.len() as int) =~= v.unsaved.subrange(
                    k + 1,
                    n,
                ));
                assert forall|i: int| 0 <= i < self.unsaved@.len() implies (
                #[trigger] self.unsaved@[i]).wf() by {
                    assert(self.unsaved@[i] == held[i + 1]);
                }
                assert forall|j: int| 0 <= j < calls.len() implies (#[trigger] calls[j]).answer
                    == Ok::<bool, Error>(true) by {
                    if j < said.len() {
                        assert(calls[j] == said[j]);
                    }
                }
            }
        }
        proof {
            assert(commit_views(self.unsaved@).len() == self.unsaved@.len());
            assert(self@.unsaved =~= Seq::empty());
            assert(v.unsaved.subrange(calls.len() as int, n).len() == n - calls.len());
            assert(appended(io0, v, cl_num, states, calls, Ok::<(), Error>(()), self@));
        }
        (Ok(()), Ghost(states), Ghost(calls))
    }

    /// Writes the commits that wait to a new log of the current snapshot,
    /// oldest first, and, where `fast` is not set, the partition is ready
    /// and a snapshot is due, a snapshot of the tip. Tells whether commits
    /// were written. Where writing fails, the commits that were not written
    /// go on waiting. See `written`; every call of the provider is one
    /// that its own contract admits.
    pub fn write(&mut self, fast: bool, user_fields: Vec<UserData>) -> (r: Result<bool, Error>)
        requires
            old(self).wf(),
        ensures
            final(self).wf(),
            final(self)@ == (PartView {
                ss_num: final(self)@.ss_num,
                policy: final(self)@.policy,
                unsaved: final(self)@.unsaved,
                ..old(self)@
            }),
            is_rest(final(self)@.unsaved, old(self)@.unsaved),
            r matches Ok(b) ==> final(self)@.unsaved.len() == 0 && b == (old(self)@.unsaved.len()
                > 0),
            old(self)@.unsaved.len() == 0 && (fast || old(self)@.tips.len() != 1
                || !old(self)@.policy.due()) ==> r == Ok::<bool, Error>(false)
                && final(self)@ == old(self)@ && final(self).io == old(self).io,
            old(self)@.unsaved.len() > 0 && !name_ok(encode_utf8(old(self)@.repo_name)) ==> r
                == Err::<bool, Error>(name_fault()) && final(self)@ == old(self)@
                && final(self).io == old(self).io,
            r is Ok ==> if !fast && old(self)@.tips.len() == 1 && old(self)@.policy.due() {
                final(self)@.ss_num > old(self)@.ss_num
                    && final(self)@.policy == old(self)@.policy.cleared()
            } else {
                final(self)@.ss_num == old(self)@.ss_num && final(self)@.policy == old(self)@.policy
            },
            r is Err ==> final(self)@.ss_num == old(self)@.ss_num
                && final(self)@.policy == old(self)@.policy,
            exists|
                date: Seq<u8>,
                first: usize,
                a: int,
                b: int,
                states: Seq<IO>,
                calls: Seq<Call>,
            | #[trigger]
                written(
                    old(self).io,
                    old(self)@,
                    fast,
                    user_views(user_fields@),
                    date,
                    first,
                    a,
                    b,
                    states,
                    calls,
                    r,
                    final(self)@,
                ) && states.last() == final(self).io && forall|i: int|
                    #![trigger calls[i]]
                    0 <= i < calls.len() ==> exists|m: &mut IO, data: &[u8]|
                        #![auto]
                        *m == states[i] && *final(m) == states[i + 1] && data@ == calls[i].data
                            && match calls[i].asked {
                            Asked::Snapshot(ss) => call_ensures(
                                IO::new_ss,
                                (m, ss, data),
                                calls[i].answer,
                            ),
                            Asked::Log(ss, cl) => call_ensures(
                                IO::new_ss_cl,
                                (m, ss, cl, data),
                                calls[i].answer,
                            ),
                            Asked::Append(ss, cl) => call_ensures(
                                IO::append_ss_cl,
                                (m, ss, cl, data),
                                calls[i].answer,
                            ),
                        },
    {
        let has_changes = self.unsaved.len() > 0;
        let ghost io0 = self.io;
        let ghost v = self@;
        let ghost user = user_views(user_fields@);
        let ghost n = v.unsaved.len() as int;
        let ghost nodate: Seq<u8> = Seq::empty();
        let ghost mut states: Seq<IO> = seq![io0];
        let ghost mut calls: Seq<Call> = Seq::empty();
        let ghost mut first: usize = 0;
        let ghost mut cl: usize = 0;
        let ghost mut a: int = 0;
        let ghost mut b: int = 0;
        let ghost mut opening: (Seq<IO>, Seq<Call>) = (states, calls);
        let ghost mut appends: (Seq<IO>, Seq<Call>) = (states, calls);
        proof {
            assert(commit_views(self.unsaved@).len() == self.unsaved@.len());
            assert(v.unsaved.subrange(0, n) =~= v.unsaved);
        }
        if has_changes {
            let start = match self.log_file_start(copy_user(&user_fields)) {
                Ok(bytes) => bytes,
                Err(e) => {
                    proof {
                        assert(written(
                            io0,
                            v,
                            fast,
                            user,
                            nodate,
                            first,
                            a,
                            b,
                            states,
                            calls,
                            Err::<bool, Error>(e),
                            v,
                        ));
                    }
                    return Err(e);
                },
            };
            proof {
                assert(start@ == log_start_bytes(v, user));
            }
            let out = self.open_log(&start);
            let opened = out.0;
            proof {
                first = out.1@;
                states = out.2@;
                calls = out.3@;
                opening = (states, calls);
                a = calls.len() as int;
                b = a;
            }
            let cl_num = match opened {
                Ok(cl) => cl,
                Err(e) => {
                    proof {
                        lemma_written_unopened(io0, v, fast, user, nodate, first, states, calls, e);
                    }
                    return Err(e);
                },
            };
            let out = self.append_waiting(cl_num);
            let ended = out.0;
            proof {
                cl = cl_num;
                let sa = states;
                let ca = calls;
                let sb = out.1@;
                let cb = out.2@;
                appends = (sb, cb);
                states = sa + sb.drop_first();
                calls = ca + cb;
                b = calls.len() as int;
                assert forall|i: int| #![trigger calls[i]] 0 <= i < calls.len() implies exists|
                    m: &mut IO,
                    data: &[u8],
                |
                    #![auto]
                    *m == states[i] && *final(m) == states[i + 1] && data@ == calls[i].data
                        && match calls[i].asked {
                        Asked::Snapshot(ss) => call_ensures(
                            IO::new_ss,
                            (m, ss, data),
                            calls[i].answer,
                        ),
                        Asked::Log(ss, cl) => call_ensures(
                            IO::new_ss_cl,
                            (m, ss, cl, data),
                            calls[i].answer,
                        ),
                        Asked::Append(ss, cl) => call_ensures(
                            IO::append_ss_cl,
                            (m, ss, cl, data),
                            calls[i].answer,
                        ),
                    } by {
                    if i < ca.len() {
                        assert(calls[i] == ca[i]);
                        assert(states[i] == sa[i] && states[i + 1] == sa[i + 1]);
                    } else {
                        let j = i - ca.len();
                        assert(calls[i] == cb[j]);
                        assert(states[i] == sb[j] && states[i + 1] == sb[j + 1]);
                    }
                }
                assert(states.last() == self.io);
                if ended is Err {
                    let only = seq![self.io];
                    let none = Seq::<Call>::empty();
                    lemma_written_joined(
                        io0,
                        v,
                        fast,
                        user,
                        nodate,
                        first,
                        cl,
                        sa,
                        ca,
                        sb,
                        cb,
                        only,
                        none,
                        self@,
                        Err::<bool, Error>(ended->Err_0),
                        self@,
                    );
                    assert(states =~= sa + sb.drop_first() + only.drop_first());
                    assert(calls =~= ca + cb + none);
                    assert(is_rest(self@.unsaved, v.unsaved)) by {
                        assert(self@.unsaved == v.unsaved.subrange(cb.len() - 1, n));
                    }
                }
            }
            match ended {
                Ok(()) => {},
                Err(e) => {
                    return Err(e);
                },
            }
        }
        let ghost v1 = self@;
        let ghost io1 = self.io;
        proof {
            assert(v1.unsaved =~= v.unsaved.subrange(n, n));
            assert(v1.unsaved =~= Seq::<CommitView>::empty());
        }
        if !fast && self.is_ready() && self.ss_policy.snapshot() {
            let out = self.save_snapshot(user_fields);
            let saved = out.0;
            let ghost date = out.1@;
            let ghost r: Result<bool, Error> = if saved is Ok {
                Ok(has_changes)
            } else {
                Err(saved->Err_0)
            };
            proof {
                let sa = states;
                let ca = calls;
                let sb = out.2@;
                let cb = out.3@;
                states = sa + sb.drop_first();
                calls = ca + cb;
                assert forall|i: int| #![trigger calls[i]] 0 <= i < calls.len() implies exists|
                    m: &mut IO,
                    data: &[u8],
                |
                    #![auto]
                    *m == states[i] && *final(m) == states[i + 1] && data@ == calls[i].data
                        && match calls[i].asked {
                        Asked::Snapshot(ss) => call_ensures(
                            IO::new_ss,
                            (m, ss, data),
                            calls[i].answer,
                        ),
                        Asked::Log(ss, cl) => call_ensures(
                            IO::new_ss_cl,
                            (m, ss, cl, data),
                            calls[i].answer,
                        ),
                        Asked::Append(ss, cl) => call_ensures(
                            IO::append_ss_cl,
                            (m, ss, cl, data),
                            calls[i].answer,
                        ),
                    } by {
                    if i < ca.len() {
                        assert(calls[i] == ca[i]);
                        assert(states[i] == sa[i] && states[i + 1] == sa[i + 1]);
                    } else {
                        let j = i - ca.len();
                        assert(calls[i] == cb[j]);
                        assert(states[i] == sb[j] && states[i + 1] == sb[j + 1]);
                    }
                }
                assert(states.last() == self.io);
                assert(finished(io1, v1, fast, user, date, sb, cb, r, self@, has_changes));
                if has_changes {
                    lemma_written_joined(
                        io0,
                        v,
                        fast,
                        user,
                        date,
                        first,
                        cl,
                        opening.0,
                        opening.1,
                        appends.0,
                        appends.1,
                        sb,
                        cb,
                        v1,
                        r,
                        self@,
                    );
                    assert(states =~= opening.0 + appends.0.drop_first() + sb.drop_first());
                    assert(calls =~= opening.1 + appends.1 + cb);
                } else {
                    assert(states =~= sb);
                    assert(calls =~= cb);
                    assert(written(io0, v, fast, user, date, first, a, b, states, calls, r, self@));
                }
            }
            return match saved {
                Ok(()) => Ok(has_changes),
                Err(e) => Err(e),
            };
        }
        proof {
            let only = seq![self.io];
            let none = Seq::<Call>::empty();
            let r = Ok::<bool, Error>(has_changes);
            assert(finished(io1, v1, fast, user, nodate, only, none, r, self@, has_changes));
            if has_changes {
                lemma_written_joined(
                    io0,
                    v,
                    fast,
                    user,
                    nodate,
                    first,
                    cl,
                    opening.0,
                    opening.1,
                    appends.0,
                    appends.1,
                    only,
                    none,
                    v1,
                    r,
                    self@,
                );
                assert(states =~= opening.0 + appends.0.drop_first() + only.drop_first());
                assert(calls =~= opening.1 + appends.1 + none);
            } else {
                assert(written(io0, v, fast, user, nodate, first, a, b, states, calls, r, self@));
            }
        }
        Ok(has_changes)
    }
}

} // verus!
