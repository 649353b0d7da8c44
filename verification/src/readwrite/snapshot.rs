//! Reading and writing of snapshots.
//!
//! A snapshot holds every element of a state. It starts with a marker and a
//! date of eight bytes that is not interpreted; the elements follow, each
//! with its identifier, its payload and its checksum; it ends with the
//! exclusive or of the checksums of the elements and with the checksum of
//! all the data from the start of the file up to there.

use vstd::prelude::*;
use crate::commit::CommitMeta;
use crate::elt::Element;
use crate::error::Error;
use crate::error::ReadError;
use crate::ids::EltId;
use crate::ids::PartId;
use crate::ids::part_bits;
use crate::idmap::holds;
use crate::idmap::put;
use crate::readwrite::commitlog::ELEMENTS;
use crate::readwrite::commitlog::count_bytes;
use crate::readwrite::commitlog::fault;
use crate::readwrite::commitlog::short;
use crate::readwrite::commitlog::short_at;
use crate::readwrite::commitlog::payload_bytes;
use crate::readwrite::commitlog::parse_payload;
use crate::readwrite::commitlog::read_payload;
use crate::readwrite::commitlog::write_payload;
use crate::state::MutPartState;
use crate::state::MutView;
use crate::state::PartState;
use crate::state::StateView;
use crate::state::elt_views;
use crate::state::rooted;
use crate::state::xor_sums;
use crate::sum::Sum;
use crate::sum::sum_of;
use crate::wire::append;
use crate::wire::append_u64;
use crate::wire::avail;
use crate::wire::be64;
use crate::wire::field;
use crate::wire::from_be64;
use crate::wire::is_marked;
use crate::wire::marked;
use crate::wire::u64_at;

verus! {

/// `SNAPSHOT`: the start of a snapshot.
pub const SNAPSHOT: [u8; 8] = [83, 78, 65, 80, 83, 72, 79, 84];

/// `ELEMENT` and a NUL byte: the start of an element.
pub const ELEMENT: [u8; 8] = [69, 76, 69, 77, 69, 78, 84, 0];

/// `BYTES` and three NUL bytes: what stands before the length of a payload.
pub const BYTES_MARK: [u8; 8] = [66, 89, 84, 69, 83, 0, 0, 0];

/// `STATESUM`: what stands before the closing count and checksums.
pub const STATESUM: [u8; 8] = [83, 84, 65, 84, 69, 83, 85, 77];

/// The bytes of one element.
pub open spec fn element_bytes(id: u64, data: Seq<u8>) -> Seq<u8> {
    ELEMENT@ + be64(id) + payload_bytes(BYTES_MARK@, id, data)
}

/// The bytes of elements, one after the other.
pub open spec fn elements_bytes(s: Seq<(u64, Seq<u8>)>) -> Seq<u8>
    decreases s.len(),
{
    if s.len() == 0 {
        Seq::empty()
    } else {
        elements_bytes(s.drop_last()) + element_bytes(s.last().0, s.last().1)
    }
}

/// The bytes of a snapshot that its closing checksum covers.
#[verifier::opaque]
pub open spec fn section_bytes(elts: Seq<(u64, Seq<u8>)>, date: Seq<u8>) -> Seq<u8> {
    count_date(date) + count_bytes(ELEMENTS@, elts.len() as u64) + elements_bytes(elts)
        + count_bytes(STATESUM@, elts.len() as u64) + xor_sums(elts).bytes()
}

/// The first field of a snapshot: the marker and the date.
pub open spec fn count_date(date: Seq<u8>) -> Seq<u8> {
    SNAPSHOT@ + date
}

/// The bytes of a snapshot of the elements `elts`, written behind `before`,
/// with the given date.
pub open spec fn snapshot_bytes(before: Seq<u8>, elts: Seq<(u64, Seq<u8>)>, date: Seq<u8>) -> Seq<
    u8,
> {
    section_bytes(elts, date) + sum_of(before + section_bytes(elts, date)).bytes()
}

/// Reads one element at `pos`, which must belong to the partition `part`.
#[verifier::opaque]
pub open spec fn parse_element(b: Seq<u8>, pos: int, part: PartId) -> Result<
    ((u64, Seq<u8>), int),
    ReadError,
> {
    let id = from_be64(field(b, pos + 8, 8));
    if !avail(b, pos, 16) {
        Err(short(b, pos))
    } else if !marked(b, pos, ELEMENT@) {
        Err(fault("unexpected contents (expected ELEMENT\\x00)", pos, 0, 8))
    } else if part_bits(id) != part.id {
        Err(fault("element belongs to another partition", pos, 8, 16))
    } else {
        match parse_payload(
            b,
            pos + 16,
            id,
            BYTES_MARK@,
            "unexpected contents (expected BYTES\\x00\\x00\\x00)",
        ) {
            Ok((data, next)) => Ok(((id, data), next)),
            Err(e) => Err(e),
        }
    }
}

/// Reads `n` elements of the partition `part` from `pos` on. No element may
/// occur twice.
pub open spec fn parse_elements(b: Seq<u8>, pos: int, n: nat, part: PartId) -> Result<
    (Seq<(u64, Seq<u8>)>, int),
    ReadError,
>
    decreases n,
{
    if n == 0 {
        Ok((Seq::empty(), pos))
    } else {
        match parse_elements(b, pos, (n - 1) as nat, part) {
            Err(e) => Err(e),
            Ok((s, p)) => match parse_element(b, p, part) {
                Err(e) => Err(e),
                Ok((e, next)) => if holds(s, e.0) {
                    Err(fault("element occurs twice", p, 8, 16))
                } else {
                    Ok((put(s, e.0, e.1), next))
                },
            },
        }
    }
}

/// Reads the snapshot that starts at `start`, for the partition `part`: the
/// state without parents that holds the elements of the snapshot. The
/// checksum of every element, the exclusive or of these checksums and the
/// checksum of all the data up to the closing checksum must be as the
/// snapshot says.
#[verifier::opaque]
pub open spec fn parse_snapshot(b: Seq<u8>, start: int, part: PartId) -> Result<
    StateView,
    ReadError,
> {
    let n = from_be64(field(b, start + 24, 8));
    if !avail(b, start, 32) {
        Err(short(b, start))
    } else if !marked(b, start, SNAPSHOT@) {
        Err(fault("unexpected contents (expected SNAPSHOT)", start, 0, 8))
    } else if !marked(b, start + 16, ELEMENTS@) {
        Err(fault("unexpected contents (expected ELEMENTS)", start + 16, 0, 8))
    } else {
        match parse_elements(b, start + 32, n as nat, part) {
            Err(e) => Err(e),
            Ok((elts, p)) => if !avail(b, p, 16) {
                Err(short(b, p))
            } else if !marked(b, p, STATESUM@) {
                Err(fault("unexpected contents (expected STATESUM)", p, 0, 8))
            } else if from_be64(field(b, p + 8, 8)) != n {
                Err(
                    fault(
                        "unexpected contents (number of elements differs from that previously stated)",
                        p + 8,
                        0,
                        8,
                    ),
                )
            } else if !avail(b, p + 16, 64) {
                Err(short(b, p + 16))
            } else if field(b, p + 16, 32) != xor_sums(elts).bytes() {
                Err(fault("state checksum mismatch", p + 16, 0, 32))
            } else if field(b, p + 48, 32) != sum_of(field(b, 0, p + 48)).bytes() {
                Err(fault("checksum mismatch", p + 48, 0, 32))
            } else {
                Ok(rooted(part, elts))
            },
        }
    }
}

/// Once reading elements has failed, reading more of them fails in the same way.
pub proof fn lemma_elements_fail(b: Seq<u8>, pos: int, k: nat, n: nat, part: PartId)
    requires
        k <= n,
        parse_elements(b, pos, k, part) is Err,
    ensures
        parse_elements(b, pos, n, part) == parse_elements(b, pos, k, part),
    decreases n,
{
    if k < n {
        lemma_elements_fail(b, pos, k, (n - 1) as nat, part);
    }
}

fn read_element(bytes: &[u8], pos: usize, part: PartId) -> (r: Result<
    (EltId, Element, usize),
    ReadError,
>)
    requires
        pos <= bytes.len(),
    ensures
        match parse_element(bytes@, pos as int, part) {
            Ok(h) => r matches Ok(v) && v.0.id == h.0.0 && v.1@ == h.0.1 && v.2 == h.1 && pos < v.2
                <= bytes.len() && part_bits(v.0.id) == part.id,
            Err(e) => r matches Err(x) && x == e,
        },
{
    proof {
        reveal(parse_element);
    }
    if bytes.len() - pos < 16 {
        return Err(short_at(bytes, pos));
    }
    if !is_marked(bytes, pos, ELEMENT.as_slice()) {
        return Err(
            ReadError {
                msg: "unexpected contents (expected ELEMENT\\x00)",
                pos,
                off_start: 0,
                off_end: 8,
            },
        );
    }
    let id = EltId { id: u64_at(bytes, pos + 8) };
    if !part.owns(id) {
        return Err(
            ReadError {
                msg: "element belongs to another partition",
                pos,
                off_start: 8,
                off_end: 16,
            },
        );
    }
    match read_payload(
        bytes,
        pos + 16,
        id.id,
        BYTES_MARK.as_slice(),
        "unexpected contents (expected BYTES\\x00\\x00\\x00)",
    ) {
        Ok((elt, next)) => Ok((id, elt, next)),
        Err(e) => Err(e),
    }
}

fn read_elements(bytes: &[u8], pos: usize, count: u64, part: PartId) -> (r: Result<
    (MutPartState, usize),
    ReadError,
>)
    requires
        pos <= bytes.len(),
        part.wf(),
    ensures
        match parse_elements(bytes@, pos as int, count as nat, part) {
            Ok(h) => r matches Ok(v) && v.0@.elts == h.0 && v.0.wf() && v.0@.part_id == part
                && v.1 == h.1 && pos <= v.1 <= bytes.len(),
            Err(e) => r matches Err(x) && x == e,
        },
{
    let mut state = PartState::new(part).clone_mut();
    let mut p = pos;
    let mut i: u64 = 0;
    while i < count
        invariant
            i <= count,
            pos <= p <= bytes.len(),
            state.wf(),
            state@.part_id == part,
            parse_elements(bytes@, pos as int, i as nat, part) matches Ok(h) && h.0 == state@.elts
                && h.1 == p,
        decreases count - i,
    {
        match read_element(bytes, p, part) {
            Err(e) => {
                proof {
                    lemma_elements_fail(bytes@, pos as int, (i + 1) as nat, count as nat, part);
                }
                return Err(e);
            },
            Ok((id, elt, next)) => {
                if state.is_avail(id) {
                    proof {
                        lemma_elements_fail(
                            bytes@,
                            pos as int,
                            (i + 1) as nat,
                            count as nat,
                            part,
                        );
                    }
                    return Err(
                        ReadError {
                            msg: "element occurs twice",
                            pos: p,
                            off_start: 8,
                            off_end: 16,
                        },
                    );
                }
                match state.insert_with_id(id, elt) {
                    Ok(()) => {},
                    Err(_) => {
                        assert(false);
                    },
                }
                p = next;
                i += 1;
            },
        }
    }
    Ok((state, p))
}

/// Reads the snapshot that starts at `start` in `bytes`, for the partition
/// `part_id`. The data before `start` belong to the file: the closing
/// checksum covers them.
pub fn read_snapshot(bytes: &[u8], start: usize, part_id: PartId) -> (r: Result<PartState, Error>)
    requires
        part_id.wf(),
    ensures
        match parse_snapshot(bytes@, start as int, part_id) {
            Ok(v) => r matches Ok(s) && s@ == v && s.wf() && s@.acyclic() && s@.part_id
                == part_id,
            Err(e) => r matches Err(x) && x == Error::Read(e),
        },
{
    proof {
        reveal(parse_snapshot);
    }
    let len = bytes.len();
    if start > len || len - start < 32 {
        return Err(Error::Read(short_at(bytes, start)));
    }
    if !is_marked(bytes, start, SNAPSHOT.as_slice()) {
        return Err(
            Error::Read(
                ReadError {
                    msg: "unexpected contents (expected SNAPSHOT)",
                    pos: start,
                    off_start: 0,
                    off_end: 8,
                },
            ),
        );
    }
    if !is_marked(bytes, start + 16, ELEMENTS.as_slice()) {
        return Err(
            Error::Read(
                ReadError {
                    msg: "unexpected contents (expected ELEMENTS)",
                    pos: start + 16,
                    off_start: 0,
                    off_end: 8,
                },
            ),
        );
    }
    let count = u64_at(bytes, start + 24);
    let (state, p) = match read_elements(bytes, start + 32, count, part_id) {
        Ok(h) => h,
        Err(e) => {
            return Err(Error::Read(e));
        },
    };
    if len - p < 16 {
        return Err(Error::Read(short_at(bytes, p)));
    }
    if !is_marked(bytes, p, STATESUM.as_slice()) {
        return Err(
            Error::Read(
                ReadError {
                    msg: "unexpected contents (expected STATESUM)",
                    pos: p,
                    off_start: 0,
                    off_end: 8,
                },
            ),
        );
    }
    if u64_at(bytes, p + 8) != count {
        return Err(
            Error::Read(
                ReadError {
                    msg: "unexpected contents (number of elements differs from that previously stated)",
                    pos: p + 8,
                    off_start: 0,
                    off_end: 8,
                },
            ),
        );
    }
    if len - (p + 16) < 64 {
        return Err(Error::Read(short_at(bytes, p + 16)));
    }
    proof {
        reveal(MutView::wf);
    }
    if !state.elt_sum.eq_at(bytes, p + 16) {
        return Err(
            Error::Read(
                ReadError {
                    msg: "state checksum mismatch",
                    pos: p + 16,
                    off_start: 0,
                    off_end: 32,
                },
            ),
        );
    }
    let sum = Sum::calculate(vstd::slice::slice_subrange(bytes, 0, p + 48));
    if !sum.eq_at(bytes, p + 48) {
        return Err(
            Error::Read(
                ReadError { msg: "checksum mismatch", pos: p + 48, off_start: 0, off_end: 32 },
            ),
        );
    }
    let s = PartState::from_mut(state, Vec::new(), CommitMeta::blank());
    assert(s@.parents =~= Seq::<Sum>::empty());
    Ok(s)
}

/// The date of today in UTC as eight digits: year, month, day. It comes
/// from `chrono::Utc::now` and `format` with `%Y%m%d`; nothing is claimed of
/// it, since it depends on the clock.
#[verifier::external_body]
pub(crate) fn today_stamp() -> (stamp: Vec<u8>) {
    chrono::Utc::now().format("%Y%m%d").to_string().into_bytes()
}

fn write_elements(elts: &crate::idmap::IdMap<Element>, w: &mut Vec<u8>)
    ensures
        final(w)@ == old(w)@ + elements_bytes(elt_views(elts.entries())),
{
    let mut i: usize = 0;
    let ghost all = elt_views(elts.entries());
    while i < elts.len()
        invariant
            i <= elts.entries().len(),
            all == elt_views(elts.entries()),
            w@ == old(w)@ + elements_bytes(all.subrange(0, i as int)),
        decreases elts.entries().len() - i,
    {
        let id = elts.id_at(i);
        append(w, ELEMENT.as_slice());
        append_u64(w, id);
        write_payload(BYTES_MARK.as_slice(), id, elts.value_at(i), w);
        proof {
            let s = all.subrange(0, i + 1);
            assert(s.drop_last() =~= all.subrange(0, i as int));
            assert(s.last() == (elts.entries()[i as int].0, elts.entries()[i as int].1@));
            assert(w@ =~= old(w)@ + elements_bytes(s));
        }
        i += 1;
    }
    assert(all.subrange(0, all.len() as int) =~= all);
}

/// Writes a snapshot of `state` behind what `writer` holds, with the bytes
/// `date` as its date. The date must have eight bytes.
pub fn write_snapshot_dated(state: &PartState, date: &[u8], writer: &mut Vec<u8>) -> (r: Result<
    (),
    Error,
>)
    requires
        state.wf(),
    ensures
        r is Ok <==> date@.len() == 8,
        r is Ok ==> final(writer)@ == old(writer)@ + snapshot_bytes(
            old(writer)@,
            state@.elts,
            date@,
        ),
        r matches Err(e) ==> e == Error::arg_spec("the date of a snapshot has eight bytes")
            && final(writer)@ == old(writer)@,
{
    if date.len() != 8 {
        return Err(Error::arg("the date of a snapshot has eight bytes"));
    }
    proof {
        reveal(StateView::wf);
        reveal(section_bytes);
    }
    let ghost start = writer@.len();
    append(writer, SNAPSHOT.as_slice());
    append(writer, date);
    append(writer, ELEMENTS.as_slice());
    let n = state.elts.len() as u64;
    append_u64(writer, n);
    write_elements(&state.elts, writer);
    append(writer, STATESUM.as_slice());
    append_u64(writer, n);
    state.elt_sum.write(writer);
    assert(writer@ =~= old(writer)@ + section_bytes(state@.elts, date@));
    let sum = Sum::calculate(writer.as_slice());
    sum.write(writer);
    assert(writer@ =~= old(writer)@ + snapshot_bytes(old(writer)@, state@.elts, date@));
    Ok(())
}

/// The date that is written for the stamp `stamp`: its last eight bytes,
/// behind as many digits 0 as are missing where it has fewer. A stamp of
/// eight bytes is its own date.
pub open spec fn date_of(stamp: Seq<u8>) -> Seq<u8> {
    if stamp.len() >= 8 {
        stamp.subrange(stamp.len() - 8, stamp.len() as int)
    } else {
        Seq::new((8 - stamp.len()) as nat, |i: int| 48u8) + stamp
    }
}

/// The date that is written for the stamp `stamp`, in eight bytes.
pub fn eight_bytes(stamp: &[u8]) -> (date: Vec<u8>)
    ensures
        date@ == date_of(stamp@),
        date@.len() == 8,
{
    let mut date: Vec<u8> = Vec::new();
    if stamp.len() >= 8 {
        let from = stamp.len() - 8;
        let mut i: usize = from;
        while i < stamp.len()
            invariant
                from <= i <= stamp.len(),
                from == stamp.len() - 8,
                date@ == stamp@.subrange(from as int, i as int),
            decreases stamp.len() - i,
        {
            date.push(stamp[i]);
            i += 1;
            assert(date@ =~= stamp@.subrange(from as int, i as int));
        }
    } else {
        let missing = 8 - stamp.len();
        let mut i: usize = 0;
        while i < missing
            invariant
                i <= missing,
                date@ == Seq::new(i as nat, |i: int| 48u8),
            decreases missing - i,
        {
            date.push(48);
            i += 1;
            assert(date@ =~= Seq::new(i as nat, |i: int| 48u8));
        }
        let mut j: usize = 0;
        while j < stamp.len()
            invariant
                j <= stamp.len(),
                missing == 8 - stamp.len(),
                date@ == Seq::new(missing as nat, |i: int| 48u8) + stamp@.subrange(0, j as int),
            decreases stamp.len() - j,
        {
            date.push(stamp[j]);
            j += 1;
            assert(date@ =~= Seq::new(missing as nat, |i: int| 48u8) + stamp@.subrange(
                0,
                j as int,
            ));
        }
        assert(stamp@.subrange(0, stamp@.len() as int) =~= stamp@);
    }
    date
}

/// Writes a snapshot of `state` behind what `writer` holds, with the date
/// of today, in eight bytes.
pub fn write_snapshot(state: &PartState, writer: &mut Vec<u8>) -> (r: Result<(), Error>)
    requires
        state.wf(),
    ensures
        r is Ok,
        exists|date: Seq<u8>|
            date.len() == 8 && final(writer)@ == old(writer)@ + #[trigger] snapshot_bytes(
                old(writer)@,
                state@.elts,
                date,
            ),
{
    let stamp = today_stamp();
    let date = eight_bytes(stamp.as_slice());
    write_snapshot_dated(state, date.as_slice(), writer)
}

} // verus!
