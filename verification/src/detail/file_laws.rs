//! What a partition writes to its files, it takes in again.

use vstd::prelude::*;
use vstd::utf8::encode_utf8;
use crate::commit::CommitView;
use crate::detail::asking::Call;
use crate::detail::graph::states_after;
use crate::detail::writing::append_end;
use crate::detail::part::head_of;
use crate::detail::writing::is_appending;
use crate::detail::writing::log_start_bytes;
use crate::detail::part::snapshot_file_bytes;
use crate::readwrite::commitlog::commit_bytes;
use crate::readwrite::commitlog::commits_bytes;
use crate::readwrite::header::FileType;
use crate::readwrite::header::UserView;
use crate::detail::part::PartView;
use crate::detail::part::head_checked;
use crate::detail::part::log_taken;
use crate::detail::part::snapshot_taken;
use crate::error::Error;
use crate::idmap::increasing;
use crate::readwrite::commitlog::log_bytes;
use crate::readwrite::commitlog_laws::law_log_round_trip;
use crate::readwrite::header::HeaderView;
use crate::readwrite::header::header_bytes;
use crate::readwrite::header_laws::law_header_round_trip;
use crate::readwrite::header_laws::writable_header;
use crate::readwrite::snapshot::snapshot_bytes;
use crate::readwrite::snapshot_laws::law_snapshot_round_trip;
use crate::readwrite::snapshot_laws::writable;
use crate::state::owned_by;
use crate::state::rooted;

verus! {

/// Whether the header `h` fits a partition that holds `v`: it names the
/// partition, and the name of the repository where the partition knows one.
pub open spec fn fits(h: HeaderView, v: PartView) -> bool {
    &&& h.part_id == Some(v.part_id)
    &&& encode_utf8(v.repo_name).len() == 0 || v.repo_name == h.name
}

/// A snapshot file that was written is taken in: for a header that fits the
/// partition and can be written, and elements of the partition that can be
/// written, taking in the header followed by the snapshot gives the header;
/// the partition knows the name of the repository, and the state without
/// parents that holds the elements is known and a tip.
pub proof fn law_snapshot_file_taken(
    v: PartView,
    h: HeaderView,
    elts: Seq<(u64, Seq<u8>)>,
    date: Seq<u8>,
)
    requires
        writable_header(h),
        fits(h, v),
        increasing(elts),
        owned_by(elts, v.part_id),
        writable(elts),
        date.len() == 8,
    ensures
        ({
            let file = header_bytes(h) + snapshot_bytes(header_bytes(h), elts, date);
            let s = rooted(v.part_id, elts);
            snapshot_taken(v, file) == (
                Ok::<HeaderView, Error>(h),
                PartView {
                    repo_name: h.name,
                    states: states_after(v.states, s),
                    tips: if v.tips.contains(s.statesum) {
                        v.tips
                    } else {
                        v.tips.push(s.statesum)
                    },
                    ..v
                },
            )
        }),
{
    let head = header_bytes(h);
    let file = head + snapshot_bytes(head, elts, date);
    law_header_round_trip(h, snapshot_bytes(head, elts, date));
    law_snapshot_round_trip(head, v.part_id, elts, date);
    assert(head_checked(h.name, h.part_id, v.repo_name, v.part_id) == (
        Ok::<(), Error>(()),
        h.name,
    ));
    reveal(snapshot_taken);
}

/// A commit log file that was written is taken in: for a header that fits
/// the partition and can be written, and commits that can be written,
/// taking in the header followed by the log gives the header, and the
/// commits are added to those that wait to be replayed.
pub proof fn law_log_file_taken(
    v: PartView,
    h: HeaderView,
    cs: Seq<CommitView>,
    queue: Seq<CommitView>,
)
    requires
        writable_header(h),
        fits(h, v),
        forall|i: int| 0 <= i < cs.len() ==> (#[trigger] cs[i]).wf(),
    ensures
        log_taken(v, header_bytes(h) + log_bytes(cs), queue) == (
            Ok::<HeaderView, Error>(h),
            PartView { repo_name: h.name, ..v },
            queue + cs,
        ),
{
    let head = header_bytes(h);
    law_header_round_trip(h, log_bytes(cs));
    law_log_round_trip(head, cs);
    assert(head_checked(h.name, h.part_id, v.repo_name, v.part_id) == (
        Ok::<(), Error>(()),
        h.name,
    ));
    reveal(log_taken);
}

/// The data that the calls hold, one after the other.
pub open spec fn joined(calls: Seq<Call>) -> Seq<u8>
    decreases calls.len(),
{
    if calls.len() == 0 {
        Seq::empty()
    } else {
        calls.first().data + joined(calls.drop_first())
    }
}

/// The calls that append all the commits that wait hold the bytes of these
/// commits, one after the other.
pub proof fn lemma_appended_bytes(waiting: Seq<CommitView>, ss: usize, cl: usize, calls: Seq<Call>)
    requires
        is_appending(waiting, ss, cl, calls),
        calls.len() == waiting.len(),
    ensures
        joined(calls) == commits_bytes(waiting),
    decreases calls.len(),
{
    if calls.len() > 0 {
        let rest = calls.drop_first();
        let left = waiting.drop_first();
        assert(is_appending(left, ss, cl, rest)) by {
            assert forall|j: int| 0 <= j < rest.len() implies (#[trigger] rest[j]).asked
                == crate::detail::asking::Asked::Append(ss, cl) && rest[j].data == commit_bytes(
                left[j],
            ) by {
                assert(rest[j] == calls[j + 1]);
                assert(left[j] == waiting[j + 1]);
            }
            assert forall|j: int| 0 <= j < rest.len() - 1 implies (#[trigger] rest[j]).answer
                == Ok::<bool, Error>(true) by {
                assert(rest[j] == calls[j + 1]);
            }
        }
        lemma_appended_bytes(left, ss, cl, rest);
        assert(calls.first().data == commit_bytes(waiting.first())) by {
            assert(calls[0].data == commit_bytes(waiting[0]));
        }
    }
}

/// What is written as a snapshot file is taken in as that snapshot: the
/// data that a partition hands over for a snapshot of the elements `elts`,
/// taken in by a partition `v` of the same name and identifier, or one
/// that knows no name yet, give the header, and the state without parents
/// that holds the elements is known and a tip.
pub proof fn law_snapshot_written_loads(
    v: PartView,
    name: Seq<char>,
    user: Seq<UserView>,
    elts: Seq<(u64, Seq<u8>)>,
    date: Seq<u8>,
)
    requires
        writable_header(head_of(FileType::Snapshot(0), name, v.part_id, user)),
        encode_utf8(v.repo_name).len() == 0 || v.repo_name == name,
        increasing(elts),
        owned_by(elts, v.part_id),
        writable(elts),
        date.len() == 8,
    ensures
        ({
            let h = head_of(FileType::Snapshot(0), name, v.part_id, user);
            let s = rooted(v.part_id, elts);
            snapshot_taken(v, snapshot_file_bytes(h, elts, date)) == (
                Ok::<HeaderView, Error>(h),
                PartView {
                    repo_name: name,
                    states: states_after(v.states, s),
                    tips: if v.tips.contains(s.statesum) {
                        v.tips
                    } else {
                        v.tips.push(s.statesum)
                    },
                    ..v
                },
            )
        }),
{
    let h = head_of(FileType::Snapshot(0), name, v.part_id, user);
    law_snapshot_file_taken(v, h, elts, date);
}

/// What is written as a log file is taken in as that log: the data that a
/// partition `w` hands over when it opens a log and appends all the commits
/// that wait, one after the other, taken in by a partition `v` of the same
/// name and identifier, or one that knows no name yet, give the header, and
/// the commits that waited are added to those that wait to be replayed.
pub proof fn law_log_written_loads(
    v: PartView,
    w: PartView,
    user: Seq<UserView>,
    cl: usize,
    calls: Seq<Call>,
    queue: Seq<CommitView>,
)
    requires
        writable_header(head_of(FileType::CommitLog(0), w.repo_name, w.part_id, user)),
        v.part_id == w.part_id,
        encode_utf8(v.repo_name).len() == 0 || v.repo_name == w.repo_name,
        forall|i: int| 0 <= i < w.unsaved.len() ==> (#[trigger] w.unsaved[i]).wf(),
        is_appending(w.unsaved, w.ss_num, cl, calls),
        append_end(calls) is Ok,
    ensures
        log_taken(v, log_start_bytes(w, user) + joined(calls), queue) == (
            Ok::<HeaderView, Error>(
                head_of(FileType::CommitLog(0), w.repo_name, w.part_id, user),
            ),
            PartView { repo_name: w.repo_name, ..v },
            queue + w.unsaved,
        ),
{
    let h = head_of(FileType::CommitLog(0), w.repo_name, w.part_id, user);
    lemma_appended_bytes(w.unsaved, w.ss_num, cl, calls);
    assert(log_start_bytes(w, user) + joined(calls) =~= header_bytes(h) + log_bytes(w.unsaved));
    law_log_file_taken(v, h, w.unsaved, queue);
}

} // verus!
