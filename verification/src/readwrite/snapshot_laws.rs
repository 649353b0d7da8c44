//! What is written as a snapshot is read back: the elements, in a state
//! without parents.

use vstd::prelude::*;
use crate::commit::blank_meta;
use crate::error::ReadError;
use crate::ids::PartId;
use crate::ids::part_bits;
use crate::idmap::increasing;
use crate::idmap::lemma_put_last;
use crate::readwrite::commitlog::ELEMENTS;
use crate::readwrite::commitlog::count_bytes;
use crate::readwrite::snapshot::count_date;
use crate::readwrite::commitlog::payload_bytes;
use crate::readwrite::commitlog_laws::lemma_part;
use crate::readwrite::commitlog_laws::lemma_payload_round;
use crate::readwrite::commitlog_laws::lemma_six_parts;
use crate::readwrite::snapshot::BYTES_MARK;
use crate::readwrite::snapshot::ELEMENT;
use crate::readwrite::snapshot::SNAPSHOT;
use crate::readwrite::snapshot::STATESUM;
use crate::readwrite::snapshot::element_bytes;
use crate::readwrite::snapshot::elements_bytes;
use crate::readwrite::snapshot::parse_element;
use crate::readwrite::snapshot::parse_elements;
use crate::readwrite::snapshot::parse_snapshot;
use crate::readwrite::snapshot::section_bytes;
use crate::readwrite::snapshot::snapshot_bytes;
use crate::state::StateView;
use crate::state::owned_by;
use crate::state::rooted;
use crate::state::xor_sums;
use crate::sum::lemma_sum_bytes;
use crate::sum::sum_of;
use crate::wire::avail;
use crate::wire::be64;
use crate::wire::field;
use crate::wire::lemma_be64_decodes;
use crate::wire::marked;

verus! {

/// Whether elements can be written: their number and the length of every
/// payload fit in 64 bits.
pub open spec fn writable(elts: Seq<(u64, Seq<u8>)>) -> bool {
    &&& elts.len() <= u64::MAX
    &&& forall|i: int| 0 <= i < elts.len() ==> (#[trigger] elts[i]).1.len() <= u64::MAX
}

/// An element, as written, is read back.
pub proof fn lemma_element_round(b: Seq<u8>, pos: int, id: u64, d: Seq<u8>, part: PartId)
    requires
        d.len() <= u64::MAX,
        part_bits(id) == part.id,
        avail(b, pos, element_bytes(id, d).len() as int),
        field(b, pos, element_bytes(id, d).len() as int) == element_bytes(id, d),
    ensures
        parse_element(b, pos, part) == Ok::<((u64, Seq<u8>), int), ReadError>(
            ((id, d), pos + element_bytes(id, d).len()),
        ),
{
    reveal(parse_element);
    let w = element_bytes(id, d);
    let rest = payload_bytes(BYTES_MARK@, id, d);
    lemma_be64_decodes(id);
    assert(w.subrange(0, 8) =~= ELEMENT@);
    assert(w.subrange(8, 16) =~= be64(id));
    assert(w.subrange(16, w.len() as int) =~= rest);
    lemma_part(b, pos, w, 0, 16);
    lemma_part(b, pos, w, 0, 8);
    lemma_part(b, pos, w, 8, 8);
    lemma_part(b, pos, w, 16, rest.len() as int);
    lemma_payload_round(
        b,
        pos + 16,
        id,
        d,
        BYTES_MARK@,
        "unexpected contents (expected BYTES\\x00\\x00\\x00)",
    );
}

/// Elements of one partition in increasing order of identifier, as written,
/// are read back.
pub proof fn lemma_elements_round(b: Seq<u8>, pos: int, s: Seq<(u64, Seq<u8>)>, part: PartId)
    requires
        increasing(s),
        owned_by(s, part),
        writable(s),
        avail(b, pos, elements_bytes(s).len() as int),
        field(b, pos, elements_bytes(s).len() as int) == elements_bytes(s),
    ensures
        parse_elements(b, pos, s.len(), part) == Ok::<(Seq<(u64, Seq<u8>)>, int), ReadError>(
            (s, pos + elements_bytes(s).len()),
        ),
    decreases s.len(),
{
    if s.len() > 0 {
        let t = s.drop_last();
        let w = elements_bytes(s);
        let wt = elements_bytes(t);
        let wl = element_bytes(s.last().0, s.last().1);
        assert(increasing(t)) by {
            assert forall|i: int, j: int| 0 <= i < j < t.len() implies t[i].0 < t[j].0 by {
                assert(t[i] == s[i] && t[j] == s[j]);
            }
        }
        assert(owned_by(t, part)) by {
            assert forall|i: int| 0 <= i < t.len() implies part_bits((#[trigger] t[i]).0)
                == part.id by {
                assert(t[i] == s[i]);
            }
        }
        assert(writable(t)) by {
            assert forall|i: int| 0 <= i < t.len() implies (#[trigger] t[i]).1.len()
                <= u64::MAX by {
                assert(t[i] == s[i]);
            }
        }
        assert(w.subrange(0, wt.len() as int) =~= wt);
        assert(w.subrange(wt.len() as int, w.len() as int) =~= wl);
        lemma_part(b, pos, w, 0, wt.len() as int);
        lemma_part(b, pos, w, wt.len() as int, wl.len() as int);
        lemma_elements_round(b, pos, t, part);
        assert(part_bits(s[s.len() - 1].0) == part.id);
        lemma_element_round(b, pos + wt.len(), s.last().0, s.last().1, part);
        assert(t.len() == 0 || t.last().0 < s.last().0) by {
            if t.len() > 0 {
                assert(t.last() == s[s.len() - 2]);
            }
        }
        lemma_put_last(t, s.last().0, s.last().1);
        assert(t.push(s.last()) =~= s);
        assert((s.len() - 1) as nat == t.len());
        assert(w.len() == wt.len() + wl.len());
    } else {
        assert(s =~= Seq::empty());
    }
}

/// Where the parts of a snapshot lie in the bytes that its closing checksum
/// covers.
#[verifier::rlimit(50)]
pub proof fn lemma_section_layout(elts: Seq<(u64, Seq<u8>)>, date: Seq<u8>)
    requires
        date.len() == 8,
    ensures
        ({
            let sec = section_bytes(elts, date);
            let el = elements_bytes(elts).len() as int;
            let n = elts.len() as u64;
            &&& sec.len() == 80 + el
            &&& sec.subrange(0, 8) == SNAPSHOT@
            &&& sec.subrange(16, 24) == ELEMENTS@
            &&& sec.subrange(24, 32) == be64(n)
            &&& sec.subrange(32, 32 + el) == elements_bytes(elts)
            &&& sec.subrange(32 + el, 40 + el) == STATESUM@
            &&& sec.subrange(40 + el, 48 + el) == be64(n)
            &&& sec.subrange(48 + el, 80 + el) == xor_sums(elts).bytes()
        }),
{
    reveal(section_bytes);
    let sec = section_bytes(elts, date);
    let n = elts.len() as u64;
    let head = count_date(date);
    let count = count_bytes(ELEMENTS@, n);
    let es = elements_bytes(elts);
    let tail = count_bytes(STATESUM@, n);
    let xs = xor_sums(elts).bytes();
    let el = es.len() as int;
    lemma_be64_decodes(n);
    lemma_sum_bytes(xor_sums(elts));
    lemma_six_parts(head, count, es, tail, xs, Seq::empty());
    assert(sec == head + count + es + tail + xs);
    assert(sec =~= head + count + es + tail + xs + Seq::<u8>::empty());
    assert(sec.subrange(0, 8) =~= head.subrange(0, 8));
    assert(head.subrange(0, 8) =~= SNAPSHOT@);
    assert(sec.subrange(16, 24) =~= count.subrange(0, 8));
    assert(count.subrange(0, 8) =~= ELEMENTS@);
    assert(sec.subrange(24, 32) =~= count.subrange(8, 16));
    assert(count.subrange(8, 16) =~= be64(n));
    assert(sec.subrange(32 + el, 40 + el) =~= tail.subrange(0, 8));
    assert(tail.subrange(0, 8) =~= STATESUM@);
    assert(sec.subrange(40 + el, 48 + el) =~= tail.subrange(8, 16));
    assert(tail.subrange(8, 16) =~= be64(n));
}

/// What reading gives where the bytes of a snapshot that its closing
/// checksum covers stand at `start`, with 32 bytes behind them: the state
/// of the snapshot where these 32 bytes are the checksum of all the data
/// before them, an error where they are not.
pub proof fn lemma_snapshot_read(
    b: Seq<u8>,
    start: int,
    part: PartId,
    elts: Seq<(u64, Seq<u8>)>,
    date: Seq<u8>,
)
    requires
        increasing(elts),
        owned_by(elts, part),
        writable(elts),
        date.len() == 8,
        avail(b, start, section_bytes(elts, date).len() as int + 32),
        field(b, start, section_bytes(elts, date).len() as int) == section_bytes(elts, date),
    ensures
        parse_snapshot(b, start, part) == if field(
            b,
            start + section_bytes(elts, date).len(),
            32,
        ) == sum_of(field(b, 0, start + section_bytes(elts, date).len())).bytes() {
            Ok::<StateView, ReadError>(rooted(part, elts))
        } else {
            Err::<StateView, ReadError>(
                crate::readwrite::commitlog::fault(
                    "checksum mismatch",
                    start + section_bytes(elts, date).len(),
                    0,
                    32,
                ),
            )
        },
{
    let sec = section_bytes(elts, date);
    let n = elts.len() as u64;
    let el = elements_bytes(elts).len() as int;
    lemma_section_layout(elts, date);
    lemma_be64_decodes(n);
    lemma_sum_bytes(xor_sums(elts));
    lemma_part(b, start, sec, 0, 32);
    lemma_part(b, start, sec, 0, 8);
    lemma_part(b, start, sec, 16, 8);
    lemma_part(b, start, sec, 24, 8);
    lemma_part(b, start, sec, 32, el);
    lemma_part(b, start, sec, 32 + el, 16);
    lemma_part(b, start, sec, 32 + el, 8);
    lemma_part(b, start, sec, 40 + el, 8);
    lemma_part(b, start, sec, 48 + el, 32);
    lemma_elements_round(b, start + 32, elts, part);
    assert(marked(b, start, SNAPSHOT@));
    assert(marked(b, start + 16, ELEMENTS@));
    assert(marked(b, start + 32 + el, STATESUM@));
    assert(avail(b, start + 48 + el, 64));
    reveal(parse_snapshot);
}

/// Reading a snapshot gives back the elements that were written to it, in
/// the state without parents that holds them: for elements of one
/// partition that can be written, any date of eight bytes, and whatever
/// stands before the snapshot in the file.
pub proof fn law_snapshot_round_trip(
    before: Seq<u8>,
    part: PartId,
    elts: Seq<(u64, Seq<u8>)>,
    date: Seq<u8>,
)
    requires
        increasing(elts),
        owned_by(elts, part),
        writable(elts),
        date.len() == 8,
    ensures
        parse_snapshot(before + snapshot_bytes(before, elts, date), before.len() as int, part)
            == Ok::<StateView, ReadError>(rooted(part, elts)),
{
    let sec = section_bytes(elts, date);
    let w = snapshot_bytes(before, elts, date);
    let b = before + w;
    let start = before.len() as int;
    lemma_section_layout(elts, date);
    lemma_sum_bytes(sum_of(before + sec));
    assert(field(b, start, sec.len() as int) =~= sec);
    assert(field(b, 0, start + sec.len()) =~= before + sec);
    assert(field(b, start + sec.len(), 32) =~= sum_of(before + sec).bytes());
    lemma_snapshot_read(b, start, part, elts, date);
}

/// A snapshot whose closing checksum was damaged is not read: where one
/// byte of the 32 bytes of the closing checksum of a written snapshot is
/// changed, reading the snapshot fails.
pub proof fn law_snapshot_checksum_guards(
    before: Seq<u8>,
    part: PartId,
    elts: Seq<(u64, Seq<u8>)>,
    date: Seq<u8>,
    j: int,
    x: u8,
)
    requires
        increasing(elts),
        owned_by(elts, part),
        writable(elts),
        date.len() == 8,
        section_bytes(elts, date).len() <= j < snapshot_bytes(before, elts, date).len(),
        x != snapshot_bytes(before, elts, date)[j],
    ensures
        parse_snapshot(
            before + snapshot_bytes(before, elts, date).update(j, x),
            before.len() as int,
            part,
        ) is Err,
{
    let sec = section_bytes(elts, date);
    let w = snapshot_bytes(before, elts, date);
    let b = before + w.update(j, x);
    let start = before.len() as int;
    let sl = sec.len() as int;
    lemma_section_layout(elts, date);
    lemma_sum_bytes(sum_of(before + sec));
    assert(w.len() == sl + 32);
    assert(field(b, start, sl) =~= sec);
    assert(field(b, 0, start + sl) =~= before + sec);
    assert(field(b, start + sl, 32)[j - sl] == x);
    assert(sum_of(before + sec).bytes()[j - sl] == w[j]);
    lemma_snapshot_read(b, start, part, elts, date);
}

/// A snapshot whose state sum was damaged is not read: where one byte of
/// the 32 bytes that hold the exclusive or of the checksums of the
/// elements is changed, reading the snapshot fails.
pub proof fn law_snapshot_statesum_guards(
    before: Seq<u8>,
    part: PartId,
    elts: Seq<(u64, Seq<u8>)>,
    date: Seq<u8>,
    j: int,
    x: u8,
)
    requires
        increasing(elts),
        owned_by(elts, part),
        writable(elts),
        date.len() == 8,
        section_bytes(elts, date).len() - 32 <= j < section_bytes(elts, date).len(),
        x != snapshot_bytes(before, elts, date)[j],
    ensures
        parse_snapshot(
            before + snapshot_bytes(before, elts, date).update(j, x),
            before.len() as int,
            part,
        ) is Err,
{
    let sec = section_bytes(elts, date);
    let w = snapshot_bytes(before, elts, date);
    let b = before + w.update(j, x);
    let start = before.len() as int;
    let n = elts.len() as u64;
    let el = elements_bytes(elts).len() as int;
    lemma_section_layout(elts, date);
    lemma_be64_decodes(n);
    lemma_sum_bytes(xor_sums(elts));
    lemma_sum_bytes(sum_of(before + sec));
    let front = sec.subrange(0, 48 + el);
    assert(field(b, start, 48 + el) =~= front);
    assert(front.subrange(0, 8) =~= SNAPSHOT@);
    assert(front.subrange(16, 24) =~= ELEMENTS@);
    assert(front.subrange(24, 32) =~= be64(n));
    assert(front.subrange(32, 32 + el) =~= elements_bytes(elts));
    assert(front.subrange(32 + el, 40 + el) =~= STATESUM@);
    assert(front.subrange(40 + el, 48 + el) =~= be64(n));
    lemma_part(b, start, front, 0, 32);
    lemma_part(b, start, front, 0, 8);
    lemma_part(b, start, front, 16, 8);
    lemma_part(b, start, front, 24, 8);
    lemma_part(b, start, front, 32, el);
    lemma_part(b, start, front, 32 + el, 16);
    lemma_part(b, start, front, 32 + el, 8);
    lemma_part(b, start, front, 40 + el, 8);
    lemma_elements_round(b, start + 32, elts, part);
    assert(marked(b, start, SNAPSHOT@));
    assert(marked(b, start + 16, ELEMENTS@));
    assert(marked(b, start + 32 + el, STATESUM@));
    assert(field(b, start + 48 + el, 32)[j - 48 - el] == x);
    assert(xor_sums(elts).bytes()[j - 48 - el] == w[j]) by {
        assert(sec.subrange(48 + el, 80 + el)[j - 48 - el] == sec[j]);
        assert(w[j] == sec[j]);
    }
    reveal(parse_snapshot);
}

/// A state without parents and with blank metadata is the state that its
/// snapshot is read back as.
pub proof fn law_snapshot_of_root(s: StateView)
    requires
        s.wf(),
        s.parents.len() == 0,
        s.meta == blank_meta(),
    ensures
        rooted(s.part_id, s.elts) == s,
{
    reveal(StateView::wf);
    assert(s.parents =~= Seq::empty());
}

} // verus!
