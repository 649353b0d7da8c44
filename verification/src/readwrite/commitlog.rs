//! Reading and writing of commit logs.
//!
//! A log starts with a marker of sixteen bytes. Commits follow one another
//! without gaps up to the end of the data. Every field starts at a multiple
//! of sixteen bytes from the start of its commit, integers are big-endian,
//! and every commit ends with the checksum of all its bytes before that
//! checksum.

use vstd::prelude::*;
use vstd::utf8::decode_utf8;
use vstd::utf8::valid_utf8;
use crate::commit::ChangeView;
use crate::commit::Commit;
use crate::commit::CommitMeta;
use crate::commit::CommitView;
use crate::commit::EltChange;
use crate::commit::ExtraMeta;
use crate::commit::MetaView;
use crate::commit::extra_bytes;
use crate::commit::change_views;
use crate::commit::lemma_change_views_put;
use crate::commit::commit_views;
use crate::elt::Element;
use crate::elt::utf8_text;
use crate::error::Error;
use crate::error::ReadError;
use crate::ids::EltId;
use crate::idmap::IdMap;
use crate::idmap::put;
use crate::sum::Sum;
use crate::sum::elt_sum_of;
use crate::sum::sum_of;
use crate::wire::append;
use crate::wire::append_i64;
use crate::wire::append_padded;
use crate::wire::append_u32;
use crate::wire::append_u64;
use crate::wire::be32;
use crate::wire::be64;
use crate::wire::be64_signed;
use crate::wire::copy_range;
use crate::wire::field;
use crate::wire::from_be32;
use crate::wire::from_be64;
use crate::wire::from_be64_signed;
use crate::wire::avail;
use crate::wire::i64_at;
use crate::wire::is_marked;
use crate::wire::marked;
use crate::wire::pad_len;
use crate::wire::padded;
use crate::wire::padding_for;
use crate::wire::u32_at;
use crate::wire::u64_at;

verus! {

/// `COMMIT LOG` and six NUL bytes: the start of a log.
pub const LOG_START: [u8; 16] = [67, 79, 77, 77, 73, 84, 32, 76, 79, 71, 0, 0, 0, 0, 0, 0];

/// `COMMIT`: the start of a commit with one parent.
pub const COMMIT_WORD: [u8; 6] = [67, 79, 77, 77, 73, 84];

/// `MERGE`: the start of a commit with several parents.
pub const MERGE_WORD: [u8; 5] = [77, 69, 82, 71, 69];

/// A NUL byte and `U`: what stands before the time of a commit.
pub const TIME_MARK: [u8; 2] = [0, 85];

/// `CNUM`: what stands before the number of a commit.
pub const CNUM: [u8; 4] = [67, 78, 85, 77];

/// `XM`: what stands before the kind of the extra metadata.
pub const XM: [u8; 2] = [88, 77];

/// `TT`: extra metadata that are a text.
pub const XM_TEXT: [u8; 2] = [84, 84];

/// Two NUL bytes: no extra metadata.
pub const XM_NONE: [u8; 2] = [0, 0];

/// `ELEMENTS`: what stands before the number of changes.
pub const ELEMENTS: [u8; 8] = [69, 76, 69, 77, 69, 78, 84, 83];

/// `ELT` and a space: the start of a change.
pub const ELT: [u8; 4] = [69, 76, 84, 32];

/// `DEL` and a NUL byte: a deletion.
pub const DEL: [u8; 4] = [68, 69, 76, 0];

/// `INS` and a NUL byte: an insertion.
pub const INS: [u8; 4] = [73, 78, 83, 0];

/// `REPL`: a replacement.
pub const REPL: [u8; 4] = [82, 69, 80, 76];

/// `MOVO`: a move out of the partition.
pub const MOVO: [u8; 4] = [77, 79, 86, 79];

/// `MOV` and a NUL byte: a further move of an element that has left.
pub const MOV: [u8; 4] = [77, 79, 86, 0];

/// `ELT DATA`: what stands before the length of a payload.
pub const ELT_DATA: [u8; 8] = [69, 76, 84, 32, 68, 65, 84, 65];

/// `NEW ELT` and a NUL byte: what stands before the new identifier of a
/// moved element.
pub const NEW_ELT: [u8; 8] = [78, 69, 87, 32, 69, 76, 84, 0];

/// The two fields of sixteen bytes that open a commit, and the extra
/// metadata, padded.
#[verifier::opaque]
pub open spec fn head_bytes(n_parents: nat, m: MetaView) -> Seq<u8> {
    (if n_parents == 1 {
        COMMIT_WORD@
    } else {
        MERGE_WORD@ + seq![n_parents as u8]
    }) + TIME_MARK@ + be64_signed(m.timestamp) + CNUM@ + be32(m.number) + XM@ + (if m.extra
        is Some {
        XM_TEXT@
    } else {
        XM_NONE@
    }) + be32(extra_bytes(m.extra).len() as u32) + padded(extra_bytes(m.extra))
}

/// The bytes of checksums, one after the other.
pub open spec fn sums_bytes(s: Seq<Sum>) -> Seq<u8>
    decreases s.len(),
{
    if s.len() == 0 {
        Seq::empty()
    } else {
        sums_bytes(s.drop_last()) + s.last().bytes()
    }
}

/// The four bytes that name the kind of a change.
pub open spec fn change_tag(ch: ChangeView) -> Seq<u8> {
    match ch {
        ChangeView::Deletion => DEL@,
        ChangeView::Insertion(_) => INS@,
        ChangeView::Replacement(_) => REPL@,
        ChangeView::MovedOut(_) => MOVO@,
        ChangeView::Moved(_) => MOV@,
    }
}

/// The bytes of a payload in a file: a marker of eight bytes, the length,
/// the payload padded, and the element's checksum.
pub open spec fn payload_bytes(mark: Seq<u8>, id: u64, data: Seq<u8>) -> Seq<u8> {
    mark + be64(data.len() as u64) + padded(data) + elt_sum_of(id, data).bytes()
}

/// The bytes of one change.
pub open spec fn change_bytes(id: u64, ch: ChangeView) -> Seq<u8> {
    ELT@ + change_tag(ch) + be64(id) + match ch {
        ChangeView::Deletion => Seq::empty(),
        ChangeView::Insertion(d) => payload_bytes(ELT_DATA@, id, d),
        ChangeView::Replacement(d) => payload_bytes(ELT_DATA@, id, d),
        ChangeView::MovedOut(n) => NEW_ELT@ + be64(n),
        ChangeView::Moved(n) => NEW_ELT@ + be64(n),
    }
}

/// The bytes of changes, one after the other.
pub open spec fn changes_bytes(s: Seq<(u64, ChangeView)>) -> Seq<u8>
    decreases s.len(),
{
    if s.len() == 0 {
        Seq::empty()
    } else {
        changes_bytes(s.drop_last()) + change_bytes(s.last().0, s.last().1)
    }
}

/// A marker of eight bytes and a number: a field of sixteen bytes.
pub open spec fn count_bytes(mark: Seq<u8>, n: u64) -> Seq<u8> {
    mark + be64(n)
}

/// The bytes of a commit that its checksum covers.
pub open spec fn body_bytes(c: CommitView) -> Seq<u8> {
    head_bytes(c.parents.len(), c.meta) + sums_bytes(c.parents) + count_bytes(
        ELEMENTS@,
        c.changes.len() as u64,
    ) + changes_bytes(c.changes) + c.statesum.bytes()
}

/// The bytes of a commit.
pub open spec fn commit_bytes(c: CommitView) -> Seq<u8> {
    body_bytes(c) + sum_of(body_bytes(c)).bytes()
}

/// The bytes of commits, one after the other.
pub open spec fn commits_bytes(cs: Seq<CommitView>) -> Seq<u8>
    decreases cs.len(),
{
    if cs.len() == 0 {
        Seq::empty()
    } else {
        commit_bytes(cs.first()) + commits_bytes(cs.drop_first())
    }
}

/// The bytes of a log that holds the commits `cs`.
pub open spec fn log_bytes(cs: Seq<CommitView>) -> Seq<u8> {
    LOG_START@ + commits_bytes(cs)
}

/// Writes the marker that starts a commit log.
pub fn start_log(writer: &mut Vec<u8>) -> (r: Result<(), Error>)
    ensures
        r is Ok,
        final(writer)@ == old(writer)@ + LOG_START@,
{
    append(writer, LOG_START.as_slice());
    Ok(())
}

fn write_head(n_parents: usize, meta: &CommitMeta, w: &mut Vec<u8>)
    requires
        1 <= n_parents <= 255,
        meta.wf(),
    ensures
        final(w)@ == old(w)@ + head_bytes(n_parents as nat, meta@),
{
    proof {
        reveal(head_bytes);
    }
    if n_parents == 1 {
        append(w, COMMIT_WORD.as_slice());
    } else {
        append(w, MERGE_WORD.as_slice());
        w.push(n_parents as u8);
    }
    append(w, TIME_MARK.as_slice());
    append_i64(w, meta.timestamp);
    append(w, CNUM.as_slice());
    append_u32(w, meta.number);
    append(w, XM.as_slice());
    match &meta.extra {
        ExtraMeta::Empty => {
            append(w, XM_NONE.as_slice());
            append_u32(w, 0);
            assert(padded(extra_bytes(meta@.extra)) =~= Seq::<u8>::empty());
        },
        ExtraMeta::Text(txt) => {
            append(w, XM_TEXT.as_slice());
            let b = txt.as_str().as_bytes();
            append_u32(w, b.len() as u32);
            append_padded(w, b);
        },
    }
    assert(w@ =~= old(w)@ + head_bytes(n_parents as nat, meta@));
}

fn write_sums(sums: &Vec<Sum>, w: &mut Vec<u8>)
    ensures
        final(w)@ == old(w)@ + sums_bytes(sums@),
{
    let mut i: usize = 0;
    while i < sums.len()
        invariant
            i <= sums.len(),
            w@ == old(w)@ + sums_bytes(sums@.subrange(0, i as int)),
        decreases sums.len() - i,
    {
        sums[i].write(w);
        proof {
            let s = sums@.subrange(0, i + 1);
            assert(s.drop_last() =~= sums@.subrange(0, i as int));
            assert(w@ =~= old(w)@ + sums_bytes(s));
        }
        i += 1;
    }
    assert(sums@.subrange(0, sums.len() as int) =~= sums@);
}

fn write_change(id: u64, change: &EltChange, w: &mut Vec<u8>)
    ensures
        final(w)@ == old(w)@ + change_bytes(id, change@),
{
    append(w, ELT.as_slice());
    match change {
        EltChange::Deletion => {
            append(w, DEL.as_slice());
            append_u64(w, id);
        },
        EltChange::Insertion(elt) => {
            append(w, INS.as_slice());
            append_u64(w, id);
            write_payload(ELT_DATA.as_slice(), id, elt, w);
        },
        EltChange::Replacement(elt) => {
            append(w, REPL.as_slice());
            append_u64(w, id);
            write_payload(ELT_DATA.as_slice(), id, elt, w);
        },
        EltChange::MovedOut(new_id) => {
            append(w, MOVO.as_slice());
            append_u64(w, id);
            append(w, NEW_ELT.as_slice());
            append_u64(w, new_id.id);
        },
        EltChange::Moved(new_id) => {
            append(w, MOV.as_slice());
            append_u64(w, id);
            append(w, NEW_ELT.as_slice());
            append_u64(w, new_id.id);
        },
    }
    assert(w@ =~= old(w)@ + change_bytes(id, change@));
}

/// Writes a payload as it stands in a commit and in a snapshot.
pub fn write_payload(mark: &[u8], id: u64, elt: &Element, w: &mut Vec<u8>)
    ensures
        final(w)@ == old(w)@ + payload_bytes(mark@, id, elt@),
{
    append(w, mark);
    let data = elt.data();
    append_u64(w, data.len() as u64);
    append_padded(w, data);
    let sum = Sum::elt_sum(id, data);
    sum.write(w);
    assert(w@ =~= old(w)@ + payload_bytes(mark@, id, elt@));
}

fn write_changes(changes: &IdMap<EltChange>, w: &mut Vec<u8>)
    ensures
        final(w)@ == old(w)@ + changes_bytes(change_views(changes.entries())),
{
    let mut i: usize = 0;
    let ghost all = change_views(changes.entries());
    while i < changes.len()
        invariant
            i <= changes.entries().len(),
            all == change_views(changes.entries()),
            w@ == old(w)@ + changes_bytes(all.subrange(0, i as int)),
        decreases changes.entries().len() - i,
    {
        write_change(changes.id_at(i), changes.value_at(i), w);
        proof {
            let s = all.subrange(0, i + 1);
            assert(s.drop_last() =~= all.subrange(0, i as int));
            assert(s.last() == (changes.entries()[i as int].0, changes.entries()[i as int].1@));
            assert(w@ =~= old(w)@ + changes_bytes(s));
        }
        i += 1;
    }
    assert(all.subrange(0, all.len() as int) =~= all);
}

/// Appends a single commit to a log.
pub fn write_commit(commit: &Commit, writer: &mut Vec<u8>) -> (r: Result<(), Error>)
    requires
        commit.wf(),
    ensures
        r is Ok,
        final(writer)@ == old(writer)@ + commit_bytes(commit@),
{
    proof {
        reveal(CommitView::wf);
    }
    let start = writer.len();
    write_head(commit.parents.len(), &commit.meta, writer);
    write_sums(&commit.parents, writer);
    append(writer, ELEMENTS.as_slice());
    append_u64(writer, commit.changes.len() as u64);
    write_changes(&commit.changes, writer);
    commit.statesum.write(writer);
    assert(writer@ =~= old(writer)@ + body_bytes(commit@));
    let sum = Sum::calculate(vstd::slice::slice_subrange(writer.as_slice(), start, writer.len()));
    assert(writer@.subrange(start as int, writer@.len() as int) =~= body_bytes(commit@));
    sum.write(writer);
    assert(writer@ =~= old(writer)@ + commit_bytes(commit@));
    Ok(())
}

/// The read error for the bytes `from..to` of the field at `pos`.
pub open spec fn fault(msg: &'static str, pos: int, from: int, to: int) -> ReadError {
    ReadError { msg, pos: pos as usize, off_start: from as usize, off_end: to as usize }
}

/// The read error for data that end within the field at `pos`; the offsets
/// give the bytes that are there.
pub open spec fn short(b: Seq<u8>, pos: int) -> ReadError {
    fault(
        "unexpected end of data",
        pos,
        0,
        if pos <= b.len() {
            b.len() - pos
        } else {
            0
        },
    )
}

/// Reads the two opening fields of a commit and the extra metadata at `pos`:
/// the number of parents, the metadata and the place of what follows. The
/// extra metadata are a text or nothing; where they are marked as nothing,
/// what stands in their place is passed over.
#[verifier::opaque]
pub open spec fn parse_head(b: Seq<u8>, pos: int) -> Result<(int, MetaView, int), ReadError> {
    let n = if marked(b, pos, COMMIT_WORD@) {
        1
    } else {
        b[pos + 5] as int
    };
    let xm_len = from_be32(field(b, pos + 28, 4)) as int;
    let xm = field(b, pos + 32, xm_len);
    let text = marked(b, pos + 26, XM_TEXT@);
    if !avail(b, pos, 32) {
        Err(short(b, pos))
    } else if !marked(b, pos, COMMIT_WORD@) && !marked(b, pos, MERGE_WORD@) {
        Err(fault("unexpected contents (expected COMMIT or MERGE)", pos, 0, 6))
    } else if n < 2 && !marked(b, pos, COMMIT_WORD@) {
        Err(fault("bad number of parents", pos, 5, 6))
    } else if !marked(b, pos + 6, TIME_MARK@) {
        Err(fault("unexpected contents (expected \\x00U)", pos, 6, 8))
    } else if !marked(b, pos + 16, CNUM@) {
        Err(fault("unexpected contents (expected CNUM)", pos + 16, 0, 4))
    } else if !marked(b, pos + 24, XM@) {
        Err(fault("unexpected contents (expected XM)", pos + 16, 8, 10))
    } else if !text && !marked(b, pos + 26, XM_NONE@) {
        Err(fault("unexpected contents (expected TT or \\x00\\x00)", pos + 16, 10, 12))
    } else if !avail(b, pos + 32, xm_len + pad_len(xm_len as nat)) {
        Err(short(b, pos + 32))
    } else if text && !valid_utf8(xm) {
        Err(fault("content not valid UTF-8", pos + 32, 0, xm_len))
    } else {
        Ok(
            (
                n,
                MetaView {
                    number: from_be32(field(b, pos + 20, 4)),
                    timestamp: from_be64_signed(field(b, pos + 8, 8)),
                    extra: if text {
                        Some(decode_utf8(xm))
                    } else {
                        None
                    },
                },
                pos + 32 + xm_len + pad_len(xm_len as nat),
            ),
        )
    }
}

/// Reads a payload as `payload_bytes` lays it out, for the element `id`: the
/// payload and the place of what follows. The payload must have the
/// checksum that follows it. `msg` is the message of the error for a wrong
/// marker.
#[verifier::opaque]
pub open spec fn parse_payload(
    b: Seq<u8>,
    pos: int,
    id: u64,
    mark: Seq<u8>,
    msg: &'static str,
) -> Result<(Seq<u8>, int), ReadError> {
    let len = from_be64(field(b, pos + 8, 8)) as int;
    let data = field(b, pos + 16, len);
    let end = pos + 16 + len + pad_len(len as nat);
    if !avail(b, pos, 16) {
        Err(short(b, pos))
    } else if !marked(b, pos, mark) {
        Err(fault(msg, pos, 0, 8))
    } else if !avail(b, pos + 16, len + pad_len(len as nat)) {
        Err(short(b, pos + 16))
    } else if !avail(b, end, 32) {
        Err(short(b, end))
    } else if field(b, end, 32) != elt_sum_of(id, data).bytes() {
        Err(fault("element checksum mismatch", pos + 16, 0, len))
    } else {
        Ok((data, end + 32))
    }
}

/// Reads the new identifier of a moved element at `pos`.
#[verifier::opaque]
pub open spec fn parse_new_id(b: Seq<u8>, pos: int) -> Result<(u64, int), ReadError> {
    if !avail(b, pos, 16) {
        Err(short(b, pos))
    } else if !marked(b, pos, NEW_ELT@) {
        Err(fault("unexpected contents (expected NEW ELT)", pos, 0, 8))
    } else {
        Ok((from_be64(field(b, pos + 8, 8)), pos + 16))
    }
}

/// Reads one change at `pos`: the element, what happens to it, and the
/// place of what follows.
#[verifier::opaque]
pub open spec fn parse_change(b: Seq<u8>, pos: int) -> Result<((u64, ChangeView), int), ReadError> {
    let id = from_be64(field(b, pos + 8, 8));
    if !avail(b, pos, 16) {
        Err(short(b, pos))
    } else if !marked(b, pos, ELT@) {
        Err(fault("unexpected contents (expected ELT\\x20)", pos, 0, 4))
    } else if marked(b, pos + 4, DEL@) {
        Ok(((id, ChangeView::Deletion), pos + 16))
    } else if marked(b, pos + 4, INS@) {
        match parse_payload(b, pos + 16, id, ELT_DATA@, "unexpected contents (expected ELT DATA)") {
            Ok((data, next)) => Ok(((id, ChangeView::Insertion(data)), next)),
            Err(e) => Err(e),
        }
    } else if marked(b, pos + 4, REPL@) {
        match parse_payload(b, pos + 16, id, ELT_DATA@, "unexpected contents (expected ELT DATA)") {
            Ok((data, next)) => Ok(((id, ChangeView::Replacement(data)), next)),
            Err(e) => Err(e),
        }
    } else if marked(b, pos + 4, MOVO@) {
        match parse_new_id(b, pos + 16) {
            Ok((new_id, next)) => Ok(((id, ChangeView::MovedOut(new_id)), next)),
            Err(e) => Err(e),
        }
    } else if marked(b, pos + 4, MOV@) {
        match parse_new_id(b, pos + 16) {
            Ok((new_id, next)) => Ok(((id, ChangeView::Moved(new_id)), next)),
            Err(e) => Err(e),
        }
    } else {
        Err(
            fault(
                "unexpected contents (expected one of DEL\\x00, INS\\x00, REPL, MOVO, MOV\\x00)",
                pos,
                4,
                8,
            ),
        )
    }
}

/// Reads `n` changes from `pos` on. A change of an element that an earlier
/// change names already takes the place of that change.
pub open spec fn parse_changes(b: Seq<u8>, pos: int, n: nat) -> Result<
    (Seq<(u64, ChangeView)>, int),
    ReadError,
>
    decreases n,
{
    if n == 0 {
        Ok((Seq::empty(), pos))
    } else {
        match parse_changes(b, pos, (n - 1) as nat) {
            Err(e) => Err(e),
            Ok((s, p)) => match parse_change(b, p) {
                Err(e) => Err(e),
                Ok((c, next)) => Ok((put(s, c.0, c.1), next)),
            },
        }
    }
}

/// Reads one commit at `pos`: the commit and the place of what follows. The
/// last 32 bytes must be the checksum of all bytes of the commit before
/// them.
#[verifier::opaque]
pub open spec fn parse_commit(b: Seq<u8>, pos: int) -> Result<(CommitView, int), ReadError> {
    match parse_head(b, pos) {
        Err(e) => Err(e),
        Ok((n, meta, p)) => {
            let q = p + 32 * n;
            let count = from_be64(field(b, q + 8, 8));
            if !avail(b, p, 32 * n) {
                Err(short(b, p))
            } else if !avail(b, q, 16) {
                Err(short(b, q))
            } else if !marked(b, q, ELEMENTS@) {
                Err(fault("unexpected contents (expected ELEMENTS)", q, 0, 8))
            } else {
                match parse_changes(b, q + 16, count as nat) {
                    Err(e) => Err(e),
                    Ok((changes, end)) => if !avail(b, end, 64) {
                        Err(short(b, end))
                    } else if field(b, end + 32, 32) != sum_of(
                        field(b, pos, end + 32 - pos),
                    ).bytes() {
                        Err(fault("checksum invalid", end + 32, 0, 32))
                    } else {
                        Ok(
                            (
                                CommitView {
                                    statesum: Sum::from_bytes(field(b, end, 32)),
                                    parents: Seq::new(
                                        n as nat,
                                        |i: int| Sum::from_bytes(field(b, p + 32 * i, 32)),
                                    ),
                                    changes,
                                    meta,
                                },
                                end + 64,
                            ),
                        )
                    },
                }
            }
        },
    }
}

/// Reads commits from `pos` up to the end of the data: the commits that
/// could be read, and the error that stopped the reading, if one did.
pub open spec fn parse_commits(b: Seq<u8>, pos: int) -> (Seq<CommitView>, Option<ReadError>)
    decreases b.len() - pos,
{
    if pos >= b.len() {
        (Seq::empty(), None)
    } else {
        match parse_commit(b, pos) {
            Err(e) => (Seq::empty(), Some(e)),
            Ok((c, next)) => if pos < next <= b.len() {
                let rest = parse_commits(b, next);
                (seq![c] + rest.0, rest.1)
            } else {
                (Seq::empty(), None)
            },
        }
    }
}

/// Reads a log that starts at `pos`: the marker, then commits up to the end
/// of the data.
pub open spec fn parse_log(b: Seq<u8>, pos: int) -> (Seq<CommitView>, Option<ReadError>) {
    if !avail(b, pos, 16) {
        (Seq::empty(), Some(short(b, pos)))
    } else if !marked(b, pos, LOG_START@) {
        (
            Seq::empty(),
            Some(
                fault(
                    "unexpected contents (expected COMMIT LOG\\x00\\x00\\x00\\x00\\x00\\x00)",
                    pos,
                    0,
                    16,
                ),
            ),
        )
    } else {
        parse_commits(b, pos + 16)
    }
}

/// The read error for data that end within the field at `pos`.
pub fn short_at(bytes: &[u8], pos: usize) -> (e: ReadError)
    ensures
        e == short(bytes@, pos as int),
{
    let there = if pos <= bytes.len() {
        bytes.len() - pos
    } else {
        0
    };
    ReadError { msg: "unexpected end of data", pos, off_start: 0, off_end: there }
}

fn read_head(bytes: &[u8], pos: usize) -> (r: Result<(usize, CommitMeta, usize), ReadError>)
    requires
        pos <= bytes.len(),
    ensures
        match parse_head(bytes@, pos as int) {
            Ok(h) => r matches Ok(v) && v.0 == h.0 && v.1@ == h.1 && v.2 == h.2 && v.1.wf() && 1
                <= v.0 <= 255 && pos < v.2 <= bytes.len(),
            Err(e) => r matches Err(x) && x == e,
        },
{
    proof {
        reveal(parse_head);
    }
    let len = bytes.len();
    if len - pos < 32 {
        return Err(short_at(bytes, pos));
    }
    let single = is_marked(bytes, pos, COMMIT_WORD.as_slice());
    if !single && !is_marked(bytes, pos, MERGE_WORD.as_slice()) {
        return Err(
            ReadError {
                msg: "unexpected contents (expected COMMIT or MERGE)",
                pos,
                off_start: 0,
                off_end: 6,
            },
        );
    }
    let n: usize = if single {
        1
    } else {
        bytes[pos + 5] as usize
    };
    if n < 2 && !single {
        return Err(ReadError { msg: "bad number of parents", pos, off_start: 5, off_end: 6 });
    }
    if !is_marked(bytes, pos + 6, TIME_MARK.as_slice()) {
        return Err(
            ReadError {
                msg: "unexpected contents (expected \\x00U)",
                pos,
                off_start: 6,
                off_end: 8,
            },
        );
    }
    let timestamp = i64_at(bytes, pos + 8);
    if !is_marked(bytes, pos + 16, CNUM.as_slice()) {
        return Err(
            ReadError {
                msg: "unexpected contents (expected CNUM)",
                pos: pos + 16,
                off_start: 0,
                off_end: 4,
            },
        );
    }
    let number = u32_at(bytes, pos + 20);
    if !is_marked(bytes, pos + 24, XM.as_slice()) {
        return Err(
            ReadError {
                msg: "unexpected contents (expected XM)",
                pos: pos + 16,
                off_start: 8,
                off_end: 10,
            },
        );
    }
    let text = is_marked(bytes, pos + 26, XM_TEXT.as_slice());
    if !text && !is_marked(bytes, pos + 26, XM_NONE.as_slice()) {
        return Err(
            ReadError {
                msg: "unexpected contents (expected TT or \\x00\\x00)",
                pos: pos + 16,
                off_start: 10,
                off_end: 12,
            },
        );
    }
    let xm_len = u32_at(bytes, pos + 28) as usize;
    let p = pos + 32;
    if xm_len > len - p {
        return Err(short_at(bytes, p));
    }
    let pad = padding_for(xm_len);
    if pad > len - p - xm_len {
        return Err(short_at(bytes, p));
    }
    let extra = if text {
        let xm = copy_range(bytes, p, p + xm_len);
        match utf8_text(xm) {
            Some(t) => {
                proof {
                    vstd::utf8::decode_utf8_encode_utf8(field(bytes@, p as int, xm_len as int));
                }
                ExtraMeta::Text(t)
            },
            None => {
                return Err(
                    ReadError {
                        msg: "content not valid UTF-8",
                        pos: p,
                        off_start: 0,
                        off_end: xm_len,
                    },
                );
            },
        }
    } else {
        ExtraMeta::Empty
    };
    Ok((n, CommitMeta { number, timestamp, extra }, p + xm_len + pad))
}

/// Reads a payload as `write_payload` lays it out.
pub fn read_payload(
    bytes: &[u8],
    pos: usize,
    id: u64,
    mark: &[u8],
    msg: &'static str,
) -> (r: Result<(Element, usize), ReadError>)
    requires
        pos <= bytes.len(),
        mark@.len() == 8,
    ensures
        match parse_payload(bytes@, pos as int, id, mark@, msg) {
            Ok(h) => r matches Ok(v) && v.0@ == h.0 && v.1 == h.1 && pos < v.1 <= bytes.len(),
            Err(e) => r matches Err(x) && x == e,
        },
{
    proof {
        reveal(parse_payload);
    }
    let len = bytes.len();
    if len - pos < 16 {
        return Err(short_at(bytes, pos));
    }
    if !is_marked(bytes, pos, mark) {
        return Err(ReadError { msg, pos, off_start: 0, off_end: 8 });
    }
    let data_len = u64_at(bytes, pos + 8);
    let p = pos + 16;
    if data_len > (len - p) as u64 {
        return Err(short_at(bytes, p));
    }
    let n = data_len as usize;
    let pad = padding_for(n);
    if pad > len - p - n {
        return Err(short_at(bytes, p));
    }
    let end = p + n + pad;
    if len - end < 32 {
        return Err(short_at(bytes, end));
    }
    let data = copy_range(bytes, p, p + n);
    let sum = Sum::elt_sum(id, data.as_slice());
    if !sum.eq_at(bytes, end) {
        return Err(
            ReadError { msg: "element checksum mismatch", pos: p, off_start: 0, off_end: n },
        );
    }
    Ok((Element::new(data), end + 32))
}

fn read_new_id(bytes: &[u8], pos: usize) -> (r: Result<(EltId, usize), ReadError>)
    requires
        pos <= bytes.len(),
    ensures
        match parse_new_id(bytes@, pos as int) {
            Ok(h) => r matches Ok(v) && v.0.id == h.0 && v.1 == h.1 && pos < v.1 <= bytes.len(),
            Err(e) => r matches Err(x) && x == e,
        },
{
    proof {
        reveal(parse_new_id);
    }
    if bytes.len() - pos < 16 {
        return Err(short_at(bytes, pos));
    }
    if !is_marked(bytes, pos, NEW_ELT.as_slice()) {
        return Err(
            ReadError {
                msg: "unexpected contents (expected NEW ELT)",
                pos,
                off_start: 0,
                off_end: 8,
            },
        );
    }
    Ok((EltId { id: u64_at(bytes, pos + 8) }, pos + 16))
}

fn read_change(bytes: &[u8], pos: usize) -> (r: Result<(u64, EltChange, usize), ReadError>)
    requires
        pos <= bytes.len(),
    ensures
        match parse_change(bytes@, pos as int) {
            Ok(h) => r matches Ok(v) && v.0 == h.0.0 && v.1@ == h.0.1 && v.2 == h.1 && pos < v.2
                <= bytes.len(),
            Err(e) => r matches Err(x) && x == e,
        },
{
    proof {
        reveal(parse_change);
    }
    if bytes.len() - pos < 16 {
        return Err(short_at(bytes, pos));
    }
    if !is_marked(bytes, pos, ELT.as_slice()) {
        return Err(
            ReadError {
                msg: "unexpected contents (expected ELT\\x20)",
                pos,
                off_start: 0,
                off_end: 4,
            },
        );
    }
    let id = u64_at(bytes, pos + 8);
    if is_marked(bytes, pos + 4, DEL.as_slice()) {
        Ok((id, EltChange::Deletion, pos + 16))
    } else if is_marked(bytes, pos + 4, INS.as_slice()) {
        match read_payload(
            bytes,
            pos + 16,
            id,
            ELT_DATA.as_slice(),
            "unexpected contents (expected ELT DATA)",
        ) {
            Ok((elt, next)) => Ok((id, EltChange::Insertion(elt), next)),
            Err(e) => Err(e),
        }
    } else if is_marked(bytes, pos + 4, REPL.as_slice()) {
        match read_payload(
            bytes,
            pos + 16,
            id,
            ELT_DATA.as_slice(),
            "unexpected contents (expected ELT DATA)",
        ) {
            Ok((elt, next)) => Ok((id, EltChange::Replacement(elt), next)),
            Err(e) => Err(e),
        }
    } else if is_marked(bytes, pos + 4, MOVO.as_slice()) {
        match read_new_id(bytes, pos + 16) {
            Ok((new_id, next)) => Ok((id, EltChange::MovedOut(new_id), next)),
            Err(e) => Err(e),
        }
    } else if is_marked(bytes, pos + 4, MOV.as_slice()) {
        match read_new_id(bytes, pos + 16) {
            Ok((new_id, next)) => Ok((id, EltChange::Moved(new_id), next)),
            Err(e) => Err(e),
        }
    } else {
        Err(
            ReadError {
                msg: "unexpected contents (expected one of DEL\\x00, INS\\x00, REPL, MOVO, MOV\\x00)",
                pos,
                off_start: 4,
                off_end: 8,
            },
        )
    }
}

/// Once reading changes has failed, reading more of them fails in the same way.
pub proof fn lemma_changes_fail(b: Seq<u8>, pos: int, k: nat, n: nat)
    requires
        k <= n,
        parse_changes(b, pos, k) is Err,
    ensures
        parse_changes(b, pos, n) == parse_changes(b, pos, k),
    decreases n,
{
    if k < n {
        lemma_changes_fail(b, pos, k, (n - 1) as nat);
    }
}

fn read_changes(bytes: &[u8], pos: usize, count: u64) -> (r: Result<
    (IdMap<EltChange>, usize),
    ReadError,
>)
    requires
        pos <= bytes.len(),
    ensures
        match parse_changes(bytes@, pos as int, count as nat) {
            Ok(h) => r matches Ok(v) && change_views(v.0.entries()) == h.0 && v.0.wf() && v.1
                == h.1 && pos <= v.1 <= bytes.len(),
            Err(e) => r matches Err(x) && x == e,
        },
{
    let mut changes: IdMap<EltChange> = IdMap::new();
    let mut p = pos;
    let mut i: u64 = 0;
    assert(change_views(changes.entries()) =~= Seq::empty());
    while i < count
        invariant
            i <= count,
            pos <= p <= bytes.len(),
            changes.wf(),
            parse_changes(bytes@, pos as int, i as nat) matches Ok(h) && h.0 == change_views(
                changes.entries(),
            ) && h.1 == p,
        decreases count - i,
    {
        match read_change(bytes, p) {
            Err(e) => {
                proof {
                    lemma_changes_fail(bytes@, pos as int, (i + 1) as nat, count as nat);
                }
                return Err(e);
            },
            Ok((id, change, next)) => {
                proof {
                    lemma_change_views_put(changes.entries(), id, change);
                }
                changes.insert(id, change);
                p = next;
                i += 1;
            },
        }
    }
    Ok((changes, p))
}

/// What `parse_commit` reads on success is a commit that can be written,
/// and it ends within the data.
fn read_commit(bytes: &[u8], pos: usize) -> (r: Result<(Commit, usize), ReadError>)
    requires
        pos <= bytes.len(),
    ensures
        match parse_commit(bytes@, pos as int) {
            Ok(h) => r matches Ok(v) && v.0@ == h.0 && v.1 == h.1 && v.0.wf() && pos < v.1
                <= bytes.len(),
            Err(e) => r matches Err(x) && x == e,
        },
{
    proof {
        reveal(parse_commit);
    }
    let len = bytes.len();
    let (n, meta, p) = match read_head(bytes, pos) {
        Ok(h) => h,
        Err(e) => {
            return Err(e);
        },
    };
    if (len - p) / 32 < n {
        return Err(short_at(bytes, p));
    }
    let q = p + 32 * n;
    let mut parents: Vec<Sum> = Vec::new();
    let mut i: usize = 0;
    while i < n
        invariant
            i <= n,
            q == p + 32 * n,
            q <= bytes.len(),
            parents@ == Seq::new(
                i as nat,
                |k: int| Sum::from_bytes(field(bytes@, p + 32 * k, 32)),
            ),
        decreases n - i,
    {
        parents.push(Sum::load_at(bytes, p + 32 * i));
        i += 1;
        assert(parents@ =~= Seq::new(
            i as nat,
            |k: int| Sum::from_bytes(field(bytes@, p + 32 * k, 32)),
        ));
    }
    if len - q < 16 {
        return Err(short_at(bytes, q));
    }
    if !is_marked(bytes, q, ELEMENTS.as_slice()) {
        return Err(
            ReadError {
                msg: "unexpected contents (expected ELEMENTS)",
                pos: q,
                off_start: 0,
                off_end: 8,
            },
        );
    }
    let count = u64_at(bytes, q + 8);
    let (changes, end) = match read_changes(bytes, q + 16, count) {
        Ok(h) => h,
        Err(e) => {
            return Err(e);
        },
    };
    if len - end < 64 {
        return Err(short_at(bytes, end));
    }
    let statesum = Sum::load_at(bytes, end);
    let sum = Sum::calculate(vstd::slice::slice_subrange(bytes, pos, end + 32));
    if !sum.eq_at(bytes, end + 32) {
        return Err(
            ReadError { msg: "checksum invalid", pos: end + 32, off_start: 0, off_end: 32 },
        );
    }
    Ok((Commit::new_explicit(statesum, parents, changes, meta), end + 64))
}

fn read_next(bytes: &[u8], pos: usize) -> (r: Result<(Commit, usize), ReadError>)
    requires
        pos < bytes.len(),
    ensures
        match r {
            Ok(v) => v.0.wf() && pos < v.1 <= bytes.len() && parse_commits(bytes@, pos as int).0
                == seq![v.0@] + parse_commits(bytes@, v.1 as int).0 && parse_commits(
                bytes@,
                pos as int,
            ).1 == parse_commits(bytes@, v.1 as int).1,
            Err(e) => parse_commits(bytes@, pos as int) == (Seq::<CommitView>::empty(), Some(e)),
        },
{
    read_commit(bytes, pos)
}

/// Reads commits from `pos` up to the end of the data or to the first
/// commit that cannot be read: the commits, and the error where there is
/// one.
pub fn read_commits(bytes: &[u8], pos: usize) -> (r: (Vec<Commit>, Option<ReadError>))
    requires
        pos <= bytes.len(),
    ensures
        commit_views(r.0@) == parse_commits(bytes@, pos as int).0,
        r.1 == parse_commits(bytes@, pos as int).1,
        forall|i: int| 0 <= i < r.0@.len() ==> r.0@[i].wf(),
{
    let mut fresh: Vec<Commit> = Vec::new();
    let mut fault: Option<ReadError> = None;
    let mut p = pos;
    let ghost all = parse_commits(bytes@, pos as int);
    assert(commit_views(fresh@) + all.0 =~= all.0);
    while p < bytes.len() && fault.is_none()
        invariant
            pos <= p <= bytes.len(),
            all == parse_commits(bytes@, pos as int),
            fault is None ==> all.0 == commit_views(fresh@) + parse_commits(bytes@, p as int).0,
            fault is None ==> all.1 == parse_commits(bytes@, p as int).1,
            fault is Some ==> all.0 == commit_views(fresh@) && all.1 == fault,
            forall|i: int| 0 <= i < fresh@.len() ==> fresh@[i].wf(),
        decreases bytes.len() - p + if fault is None { 1int } else { 0int },
    {
        match read_next(bytes, p) {
            Err(e) => {
                assert(commit_views(fresh@) + Seq::<CommitView>::empty() =~= commit_views(
                    fresh@,
                ));
                fault = Some(e);
            },
            Ok((commit, next)) => {
                proof {
                    let rest = parse_commits(bytes@, next as int);
                    assert(commit_views(fresh@) + (seq![commit@] + rest.0) =~= commit_views(
                        fresh@.push(commit),
                    ) + rest.0);
                }
                fresh.push(commit);
                p = next;
            },
        }
    }
    assert(fault is None ==> commit_views(fresh@) + Seq::<CommitView>::empty() =~= commit_views(
        fresh@,
    ));
    (fresh, fault)
}

/// Receives the commits of a log, one after the other, and says after each
/// whether it wants more.
pub trait CommitReceiver {
    /// Takes a commit. Tells whether more commits are wanted.
    fn receive(&mut self, commit: Commit) -> bool;
}

impl CommitReceiver for Vec<Commit> {
    /// Keeps the commit, and wants more.
    fn receive(&mut self, commit: Commit) -> (more: bool)
        ensures
            final(self)@ == old(self)@.push(commit),
            more,
    {
        self.push(commit);
        true
    }
}

/// Reads the marker of a log at `start`: the place of the first commit.
pub fn read_log_start(bytes: &[u8], start: usize) -> (r: Result<usize, ReadError>)
    ensures
        match r {
            Ok(first) => first == start + 16 && first <= bytes.len() && parse_log(
                bytes@,
                start as int,
            ) == parse_commits(bytes@, first as int),
            Err(e) => parse_log(bytes@, start as int) == (Seq::<CommitView>::empty(), Some(e)),
        },
{
    if start > bytes.len() || bytes.len() - start < 16 {
        return Err(short_at(bytes, start));
    }
    if !is_marked(bytes, start, LOG_START.as_slice()) {
        return Err(
            ReadError {
                msg: "unexpected contents (expected COMMIT LOG\\x00\\x00\\x00\\x00\\x00\\x00)",
                pos: start,
                off_start: 0,
                off_end: 16,
            },
        );
    }
    Ok(start + 16)
}

/// Whether reading the log at `start` in `bytes` may hand the commits
/// `given` to a receiver that goes through `states` and gives `answers`,
/// with the result `r`. The commits are those of the log, from the first
/// on and in their order. The receiver wants more after each but the last.
/// Where it wants no more after the last, the result is `Ok`. Where it
/// wants more after every commit, it is handed all that can be read, and
/// the result is the error that stopped the reading, or `Ok` where none
/// did.
pub open spec fn log_given<R: CommitReceiver>(
    bytes: Seq<u8>,
    start: int,
    states: Seq<R>,
    given: Seq<Commit>,
    answers: Seq<bool>,
    r: Result<(), Error>,
) -> bool {
    let all = parse_log(bytes, start);
    &&& states.len() == given.len() + 1
    &&& answers.len() == given.len()
    &&& forall|i: int| 0 <= i < given.len() ==> (#[trigger] given[i]).wf()
    &&& forall|i: int| 0 <= i < answers.len() - 1 ==> #[trigger] answers[i]
    &&& given.len() <= all.0.len()
    &&& commit_views(given) == all.0.subrange(0, given.len() as int)
    &&& if answers.len() > 0 && !answers.last() {
        r is Ok
    } else {
        given.len() == all.0.len() && r == match all.1 {
            Some(e) => Err::<(), Error>(Error::Read(e)),
            None => Ok::<(), Error>(()),
        }
    }
}

/// Reads a commit log that starts at `start` in `bytes` and hands every
/// commit to `receiver`, in the order of the log, until the receiver wants
/// no more, up to the end of the data or to the first commit that cannot
/// be read. A commit that cannot be read is an error, unless the receiver
/// has stopped before it. What the receiver is handed are the commits of
/// `read_commits`, from the first on: see `log_given`. The receiver is
/// what its own `receive` makes of it, commit after commit.
pub fn read_log<R: CommitReceiver>(bytes: &[u8], start: usize, receiver: &mut R) -> (r: Result<
    (),
    Error,
>)
    ensures
        exists|states: Seq<R>, given: Seq<Commit>, answers: Seq<bool>| #[trigger]
            log_given(bytes@, start as int, states, given, answers, r) && states[0] == *old(
                receiver,
            ) && states.last() == *final(receiver) && forall|i: int|
                #![trigger given[i]]
                0 <= i < given.len() ==> exists|m: &mut R|
                    #![auto]
                    *m == states[i] && *final(m) == states[i + 1] && call_ensures(
                        R::receive,
                        (m, given[i]),
                        answers[i],
                    ),
        r matches Err(x) ==> parse_log(bytes@, start as int).1 matches Some(e) && x == Error::Read(
            e,
        ),
        parse_log(bytes@, start as int).1 is None ==> r is Ok,
{
    let ghost all = parse_log(bytes@, start as int);
    let ghost mut states: Seq<R> = seq![*receiver];
    let ghost mut given: Seq<Commit> = Seq::empty();
    let ghost mut answers: Seq<bool> = Seq::empty();
    let mut p = match read_log_start(bytes, start) {
        Ok(p) => p,
        Err(e) => {
            proof {
                assert(commit_views(given) =~= all.0.subrange(0, 0));
                assert(log_given(
                    bytes@,
                    start as int,
                    states,
                    given,
                    answers,
                    Err::<(), Error>(Error::Read(e)),
                ));
            }
            return Err(Error::Read(e));
        },
    };
    proof {
        assert(commit_views(given) + all.0 =~= all.0);
    }
    while p < bytes.len()
        invariant
            p <= bytes.len(),
            all == parse_log(bytes@, start as int),
            all.1 == parse_commits(bytes@, p as int).1,
            all.0 == commit_views(given) + parse_commits(bytes@, p as int).0,
            states.len() == given.len() + 1,
            answers.len() == given.len(),
            forall|i: int| 0 <= i < given.len() ==> (#[trigger] given[i]).wf(),
            forall|i: int| 0 <= i < answers.len() ==> #[trigger] answers[i],
            states[0] == *old(receiver),
            states.last() == *receiver,
            forall|i: int|
                #![trigger given[i]]
                0 <= i < given.len() ==> exists|m: &mut R|
                    #![auto]
                    *m == states[i] && *final(m) == states[i + 1] && call_ensures(
                        R::receive,
                        (m, given[i]),
                        answers[i],
                    ),
        decreases bytes.len() - p,
    {
        match read_next(bytes, p) {
            Err(e) => {
                proof {
                    assert(all.0 =~= commit_views(given));
                    assert(all.0.subrange(0, given.len() as int) =~= all.0);
                    assert(log_given(
                        bytes@,
                        start as int,
                        states,
                        given,
                        answers,
                        Err::<(), Error>(Error::Read(e)),
                    ));
                }
                return Err(Error::Read(e));
            },
            Ok((commit, next)) => {
                let ghost held = given;
                let ghost was = states;
                let ghost said = answers;
                let ghost rest = parse_commits(bytes@, next as int).0;
                let ghost handing = commit;
                let more = receiver.receive(commit);
                p = next;
                proof {
                    given = held.push(handing);
                    states = was.push(*receiver);
                    answers = said.push(more);
                    assert(exists|m: &mut R|
                        #![auto]
                        *m == was.last() && *final(m) == *receiver && call_ensures(
                            R::receive,
                            (m, handing),
                            more,
                        ));
                    assert(commit_views(given) =~= commit_views(held).push(handing@));
                    assert(all.0 =~= commit_views(given) + rest);
                    assert(all.0.subrange(0, given.len() as int) =~= commit_views(given));
                    assert forall|i: int| 0 <= i < given.len() implies (#[trigger] given[i]).wf() by {
                        if i < held.len() {
                            assert(given[i] == held[i]);
                        }
                    }
                    assert forall|i: int| 0 <= i < answers.len() - 1 implies #[trigger] answers[i] by {
                        assert(answers[i] == said[i]);
                    }
                    assert forall|i: int| #![trigger given[i]] 0 <= i < given.len() implies exists|
                        m: &mut R,
                    |
                        #![auto]
                        *m == states[i] && *final(m) == states[i + 1] && call_ensures(
                            R::receive,
                            (m, given[i]),
                            answers[i],
                        ) by {
                        if i < held.len() {
                            assert(given[i] == held[i]);
                            assert(states[i] == was[i] && states[i + 1] == was[i + 1]);
                            assert(answers[i] == said[i]);
                        } else {
                            assert(given[i] == handing);
                            assert(states[i] == was.last() && states[i + 1] == *receiver);
                            assert(answers[i] == more);
                        }
                    }
                }
                if !more {
                    proof {
                        assert(log_given(
                            bytes@,
                            start as int,
                            states,
                            given,
                            answers,
                            Ok::<(), Error>(()),
                        ));
                    }
                    return Ok(());
                }
            },
        }
    }
    proof {
        assert(all.0 =~= commit_views(given));
        assert(all.0.subrange(0, given.len() as int) =~= all.0);
        assert(log_given(bytes@, start as int, states, given, answers, Ok::<(), Error>(())));
    }
    Ok(())
}

} // verus!
