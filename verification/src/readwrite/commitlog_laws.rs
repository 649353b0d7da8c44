//! What is written as a commit log is read back as it was.

use vstd::prelude::*;
use crate::commit::ChangeView;
use crate::commit::CommitView;
use crate::commit::MetaView;
use crate::commit::extra_bytes;
use crate::error::ReadError;
use crate::idmap::increasing;
use crate::idmap::lemma_put_last;
use crate::readwrite::commitlog::LOG_START;
use crate::readwrite::commitlog::COMMIT_WORD;
use crate::readwrite::commitlog::MERGE_WORD;
use crate::readwrite::commitlog::TIME_MARK;
use crate::readwrite::commitlog::CNUM;
use crate::readwrite::commitlog::XM;
use crate::readwrite::commitlog::XM_TEXT;
use crate::readwrite::commitlog::XM_NONE;
use crate::readwrite::commitlog::ELEMENTS;
use crate::readwrite::commitlog::ELT;
use crate::readwrite::commitlog::DEL;
use crate::readwrite::commitlog::INS;
use crate::readwrite::commitlog::REPL;
use crate::readwrite::commitlog::MOVO;
use crate::readwrite::commitlog::MOV;
use crate::readwrite::commitlog::ELT_DATA;
use crate::readwrite::commitlog::NEW_ELT;
use crate::readwrite::commitlog::head_bytes;
use crate::readwrite::commitlog::sums_bytes;
use crate::readwrite::commitlog::change_tag;
use crate::readwrite::commitlog::payload_bytes;
use crate::readwrite::commitlog::change_bytes;
use crate::readwrite::commitlog::changes_bytes;
use crate::readwrite::commitlog::body_bytes;
use crate::readwrite::commitlog::commit_bytes;
use crate::readwrite::commitlog::count_bytes;
use crate::readwrite::commitlog::commits_bytes;
use crate::readwrite::commitlog::log_bytes;
use crate::readwrite::commitlog::parse_head;
use crate::readwrite::commitlog::parse_payload;
use crate::readwrite::commitlog::parse_new_id;
use crate::readwrite::commitlog::parse_change;
use crate::readwrite::commitlog::parse_changes;
use crate::readwrite::commitlog::parse_commit;
use crate::readwrite::commitlog::parse_commits;
use crate::readwrite::commitlog::parse_log;
use crate::readwrite::commitlog::fault;
use crate::sum::Sum;
use crate::sum::elt_sum_of;
use crate::sum::lemma_sum_bytes;
use crate::sum::sum_of;
use crate::wire::avail;
use crate::wire::be32;
use crate::wire::be64;
use crate::wire::be64_signed;
use crate::wire::field;
use crate::wire::from_be64;
use crate::wire::lemma_be32_decodes;
use crate::wire::lemma_be64_decodes;
use crate::wire::lemma_signed_round_trip;
use crate::wire::marked;
use crate::wire::pad_len;

verus! {

/// A part of a field of `b` is a field of `b`.
pub proof fn lemma_part(b: Seq<u8>, pos: int, whole: Seq<u8>, off: int, len: int)
    requires
        avail(b, pos, whole.len() as int),
        field(b, pos, whole.len() as int) == whole,
        0 <= off,
        0 <= len,
        off + len <= whole.len(),
    ensures
        avail(b, pos + off, len),
        field(b, pos + off, len) == whole.subrange(off, off + len),
{
    let part = field(b, pos + off, len);
    let want = whole.subrange(off, off + len);
    assert forall|k: int| 0 <= k < len implies #[trigger] part[k] == want[k] by {
        assert(field(b, pos, whole.len() as int)[off + k] == b[pos + off + k]);
    }
    assert(part =~= want);
}

/// The head of a commit, as written, is read back.
pub proof fn lemma_head_round(b: Seq<u8>, pos: int, n: nat, m: MetaView)
    requires
        1 <= n <= 255,
        m.wf(),
        avail(b, pos, head_bytes(n, m).len() as int),
        field(b, pos, head_bytes(n, m).len() as int) == head_bytes(n, m),
    ensures
        parse_head(b, pos) == Ok::<(int, MetaView, int), ReadError>(
            (n as int, m, pos + head_bytes(n, m).len()),
        ),
{
    reveal(parse_head);
    reveal(head_bytes);
    let h = head_bytes(n, m);
    let xb = extra_bytes(m.extra);
    let xl = xb.len() as int;
    let word = if n == 1 {
        COMMIT_WORD@
    } else {
        MERGE_WORD@ + seq![n as u8]
    };
    let tag = if m.extra is Some {
        XM_TEXT@
    } else {
        XM_NONE@
    };
    lemma_be64_decodes(m.timestamp as u64);
    lemma_signed_round_trip(m.timestamp);
    lemma_be32_decodes(m.number);
    lemma_be32_decodes(xl as u32);
    assert(h.len() == 32 + xl + pad_len(xl as nat));
    assert(h.subrange(0, 6) =~= word);
    assert(h.subrange(0, 5) =~= word.subrange(0, 5));
    assert(h.subrange(6, 8) =~= TIME_MARK@);
    assert(h.subrange(8, 16) =~= be64_signed(m.timestamp));
    assert(h.subrange(16, 20) =~= CNUM@);
    assert(h.subrange(20, 24) =~= be32(m.number));
    assert(h.subrange(24, 26) =~= XM@);
    assert(h.subrange(26, 28) =~= tag);
    assert(h.subrange(28, 32) =~= be32(xl as u32));
    assert(h.subrange(32, 32 + xl) =~= xb);
    lemma_part(b, pos, h, 0, 32);
    lemma_part(b, pos, h, 0, 6);
    lemma_part(b, pos, h, 0, 5);
    lemma_part(b, pos, h, 6, 2);
    lemma_part(b, pos, h, 8, 8);
    lemma_part(b, pos, h, 16, 4);
    lemma_part(b, pos, h, 20, 4);
    lemma_part(b, pos, h, 24, 2);
    lemma_part(b, pos, h, 26, 2);
    lemma_part(b, pos, h, 28, 4);
    lemma_part(b, pos, h, 32, xl);
    lemma_part(b, pos, h, 32, xl + pad_len(xl as nat));
    assert(b[pos + 5] == h[5]) by {
        assert(field(b, pos, h.len() as int)[5] == b[pos + 5]);
    }
    if n == 1 {
        assert(marked(b, pos, COMMIT_WORD@));
    } else {
        assert(word[0] == 77u8);
        assert(COMMIT_WORD@[0] == 67u8);
        assert(field(b, pos, 6)[0] == 77u8);
        assert(!marked(b, pos, COMMIT_WORD@));
        assert(word.subrange(0, 5) =~= MERGE_WORD@);
        assert(marked(b, pos, MERGE_WORD@));
        assert(h[5] == n as u8);
    }
    if m.extra is Some {
        let t = m.extra->0;
        vstd::utf8::encode_utf8_valid_utf8(t);
        vstd::utf8::encode_utf8_decode_utf8(t);
        assert(marked(b, pos + 26, XM_TEXT@));
    } else {
        assert(field(b, pos + 26, 2)[0] == 0u8);
        assert(XM_TEXT@[0] == 84u8);
        assert(!marked(b, pos + 26, XM_TEXT@));
        assert(marked(b, pos + 26, XM_NONE@));
    }
    assert(marked(b, pos + 6, TIME_MARK@));
    assert(marked(b, pos + 16, CNUM@));
    assert(marked(b, pos + 24, XM@));
}

/// The bytes of checksums are 32 bytes for each, in order.
pub proof fn lemma_sums_bytes(s: Seq<Sum>)
    ensures
        sums_bytes(s).len() == 32 * s.len(),
        forall|i: int|
            0 <= i < s.len() ==> #[trigger] sums_bytes(s).subrange(32 * i, 32 * i + 32)
                == s[i].bytes(),
    decreases s.len(),
{
    if s.len() > 0 {
        let t = s.drop_last();
        lemma_sums_bytes(t);
        lemma_sum_bytes(s.last());
        assert forall|i: int| 0 <= i < s.len() implies #[trigger] sums_bytes(s).subrange(
            32 * i,
            32 * i + 32,
        ) == s[i].bytes() by {
            if i < t.len() {
                assert(sums_bytes(s).subrange(32 * i, 32 * i + 32) =~= sums_bytes(t).subrange(
                    32 * i,
                    32 * i + 32,
                ));
                assert(t[i] == s[i]);
            } else {
                assert(sums_bytes(s).subrange(32 * i, 32 * i + 32) =~= s.last().bytes());
            }
        }
    }
}

/// A payload, as written, is read back.
pub proof fn lemma_payload_round(
    b: Seq<u8>,
    pos: int,
    id: u64,
    d: Seq<u8>,
    mark: Seq<u8>,
    msg: &'static str,
)
    requires
        d.len() <= u64::MAX,
        mark.len() == 8,
        avail(b, pos, payload_bytes(mark, id, d).len() as int),
        field(b, pos, payload_bytes(mark, id, d).len() as int) == payload_bytes(mark, id, d),
    ensures
        parse_payload(b, pos, id, mark, msg) == Ok::<(Seq<u8>, int), ReadError>(
            (d, pos + payload_bytes(mark, id, d).len()),
        ),
        payload_bytes(mark, id, d).len() == 48 + d.len() + pad_len(d.len()),
{
    reveal(parse_payload);
    let w = payload_bytes(mark, id, d);
    let l = d.len() as int;
    let pad = pad_len(d.len()) as int;
    lemma_be64_decodes(l as u64);
    lemma_sum_bytes(elt_sum_of(id, d));
    assert(w.len() == 48 + l + pad);
    assert(w.subrange(0, 8) =~= mark);
    assert(w.subrange(8, 16) =~= be64(l as u64));
    assert(w.subrange(16, 16 + l) =~= d);
    assert(w.subrange(16 + l + pad, 48 + l + pad) =~= elt_sum_of(id, d).bytes());
    lemma_part(b, pos, w, 0, 16);
    lemma_part(b, pos, w, 0, 8);
    lemma_part(b, pos, w, 8, 8);
    lemma_part(b, pos, w, 16, l);
    lemma_part(b, pos, w, 16, l + pad);
    lemma_part(b, pos, w, 16 + l + pad, 32);
}

/// A change, as written, is read back.
pub proof fn lemma_change_round(b: Seq<u8>, pos: int, id: u64, ch: ChangeView)
    requires
        ch.wf(),
        avail(b, pos, change_bytes(id, ch).len() as int),
        field(b, pos, change_bytes(id, ch).len() as int) == change_bytes(id, ch),
    ensures
        parse_change(b, pos) == Ok::<((u64, ChangeView), int), ReadError>(
            ((id, ch), pos + change_bytes(id, ch).len()),
        ),
        change_bytes(id, ch).len() >= 16,
{
    reveal(parse_change);
    reveal(parse_new_id);
    let w = change_bytes(id, ch);
    lemma_be64_decodes(id);
    assert(w.subrange(0, 4) =~= ELT@);
    assert(w.subrange(4, 8) =~= change_tag(ch));
    assert(w.subrange(8, 16) =~= be64(id));
    lemma_part(b, pos, w, 0, 16);
    lemma_part(b, pos, w, 0, 4);
    lemma_part(b, pos, w, 4, 4);
    lemma_part(b, pos, w, 8, 8);
    let t = field(b, pos + 4, 4);
    assert(DEL@[0] == 68u8 && INS@[0] == 73u8 && REPL@[0] == 82u8 && MOVO@[0] == 77u8 && MOV@[0]
        == 77u8 && MOVO@[3] == 79u8 && MOV@[3] == 0u8);
    match ch {
        ChangeView::Deletion => {
            assert(w =~= ELT@ + DEL@ + be64(id));
        },
        ChangeView::Insertion(d) => {
            assert(t[0] == 73u8);
            let rest = payload_bytes(ELT_DATA@, id, d);
            assert(w.subrange(16, w.len() as int) =~= rest);
            lemma_part(b, pos, w, 16, rest.len() as int);
            lemma_payload_round(
                b,
                pos + 16,
                id,
                d,
                ELT_DATA@,
                "unexpected contents (expected ELT DATA)",
            );
        },
        ChangeView::Replacement(d) => {
            assert(t[0] == 82u8);
            let rest = payload_bytes(ELT_DATA@, id, d);
            assert(w.subrange(16, w.len() as int) =~= rest);
            lemma_part(b, pos, w, 16, rest.len() as int);
            lemma_payload_round(
                b,
                pos + 16,
                id,
                d,
                ELT_DATA@,
                "unexpected contents (expected ELT DATA)",
            );
        },
        ChangeView::MovedOut(n) => {
            assert(t[0] == 77u8 && t[3] == 79u8);
            lemma_be64_decodes(n);
            assert(w.subrange(16, 24) =~= NEW_ELT@);
            assert(w.subrange(24, 32) =~= be64(n));
            lemma_part(b, pos, w, 16, 16);
            lemma_part(b, pos, w, 16, 8);
            lemma_part(b, pos, w, 24, 8);
        },
        ChangeView::Moved(n) => {
            assert(t[0] == 77u8 && t[3] == 0u8);
            lemma_be64_decodes(n);
            assert(w.subrange(16, 24) =~= NEW_ELT@);
            assert(w.subrange(24, 32) =~= be64(n));
            lemma_part(b, pos, w, 16, 16);
            lemma_part(b, pos, w, 16, 8);
            lemma_part(b, pos, w, 24, 8);
        },
    }
}

/// Changes in increasing order of identifier, as written, are read back.
pub proof fn lemma_changes_round(b: Seq<u8>, pos: int, s: Seq<(u64, ChangeView)>)
    requires
        increasing(s),
        forall|i: int| 0 <= i < s.len() ==> (#[trigger] s[i]).1.wf(),
        avail(b, pos, changes_bytes(s).len() as int),
        field(b, pos, changes_bytes(s).len() as int) == changes_bytes(s),
    ensures
        parse_changes(b, pos, s.len()) == Ok::<(Seq<(u64, ChangeView)>, int), ReadError>(
            (s, pos + changes_bytes(s).len()),
        ),
    decreases s.len(),
{
    if s.len() > 0 {
        let t = s.drop_last();
        let w = changes_bytes(s);
        let wt = changes_bytes(t);
        let wl = change_bytes(s.last().0, s.last().1);
        assert(increasing(t)) by {
            assert forall|i: int, j: int| 0 <= i < j < t.len() implies t[i].0 < t[j].0 by {
                assert(t[i] == s[i] && t[j] == s[j]);
            }
        }
        assert forall|i: int| 0 <= i < t.len() implies (#[trigger] t[i]).1.wf() by {
            assert(t[i] == s[i]);
        }
        assert(w.subrange(0, wt.len() as int) =~= wt);
        assert(w.subrange(wt.len() as int, w.len() as int) =~= wl);
        lemma_part(b, pos, w, 0, wt.len() as int);
        lemma_part(b, pos, w, wt.len() as int, wl.len() as int);
        lemma_changes_round(b, pos, t);
        lemma_change_round(b, pos + wt.len(), s.last().0, s.last().1);
        assert(t.len() == 0 || t.last().0 < s.last().0) by {
            if t.len() > 0 {
                assert(t.last() == s[s.len() - 2]);
            }
        }
        lemma_put_last(t, s.last().0, s.last().1);
        assert(t.push(s.last()) =~= s);
        assert((s.len() - 1) as nat == t.len());
        assert(w.len() == wt.len() + wl.len());
    } else {
        assert(s =~= Seq::empty());
    }
}

/// Where six parts lie in their concatenation.
pub proof fn lemma_six_parts(
    a: Seq<u8>,
    b: Seq<u8>,
    c: Seq<u8>,
    d: Seq<u8>,
    e: Seq<u8>,
    f: Seq<u8>,
)
    ensures
        ({
            let w = a + b + c + d + e + f;
            let (la, lb, lc, ld, le, lf) = (
                a.len() as int,
                b.len() as int,
                c.len() as int,
                d.len() as int,
                e.len() as int,
                f.len() as int,
            );
            &&& w.len() == la + lb + lc + ld + le + lf
            &&& w.subrange(0, la) == a
            &&& w.subrange(la, la + lb) == b
            &&& w.subrange(la + lb, la + lb + lc) == c
            &&& w.subrange(la + lb + lc, la + lb + lc + ld) == d
            &&& w.subrange(la + lb + lc + ld, la + lb + lc + ld + le) == e
            &&& w.subrange(la + lb + lc + ld + le, la + lb + lc + ld + le + lf) == f
            &&& w.subrange(0, la + lb + lc + ld + le) == a + b + c + d + e
        }),
{
    let w = a + b + c + d + e + f;
    let (la, lb, lc, ld, le, lf) = (
        a.len() as int,
        b.len() as int,
        c.len() as int,
        d.len() as int,
        e.len() as int,
        f.len() as int,
    );
    assert(w.subrange(0, la) =~= a);
    assert(w.subrange(la, la + lb) =~= b);
    assert(w.subrange(la + lb, la + lb + lc) =~= c);
    assert(w.subrange(la + lb + lc, la + lb + lc + ld) =~= d);
    assert(w.subrange(la + lb + lc + ld, la + lb + lc + ld + le) =~= e);
    assert(w.subrange(la + lb + lc + ld + le, la + lb + lc + ld + le + lf) =~= f);
    assert(w.subrange(0, la + lb + lc + ld + le) =~= a + b + c + d + e);
}

/// Where the parts of a commit lie in the bytes that its checksum covers.
#[verifier::rlimit(50)]
pub proof fn lemma_body_layout(c: CommitView)
    ensures
        ({
            let body = body_bytes(c);
            let n = c.parents.len() as int;
            let hl = head_bytes(n as nat, c.meta).len() as int;
            let cl = changes_bytes(c.changes).len() as int;
            let q = hl + 32 * n;
            &&& body.len() == q + 48 + cl
            &&& commit_bytes(c).len() == q + 80 + cl
            &&& commit_bytes(c).subrange(0, q + 48 + cl) == body
            &&& commit_bytes(c).subrange(q + 48 + cl, q + 80 + cl) == sum_of(body).bytes()
            &&& body.subrange(0, hl) == head_bytes(n as nat, c.meta)
            &&& body.subrange(hl, q) == sums_bytes(c.parents)
            &&& body.subrange(q, q + 16) == count_bytes(ELEMENTS@, c.changes.len() as u64)
            &&& body.subrange(q + 16, q + 16 + cl) == changes_bytes(c.changes)
            &&& body.subrange(q + 16 + cl, q + 48 + cl) == c.statesum.bytes()
        }),
{
    let body = body_bytes(c);
    let n = c.parents.len() as int;
    let h = head_bytes(n as nat, c.meta);
    let ps = sums_bytes(c.parents);
    let mid = count_bytes(ELEMENTS@, c.changes.len() as u64);
    let cb = changes_bytes(c.changes);
    let ss = c.statesum.bytes();
    let tail = sum_of(body).bytes();
    lemma_sums_bytes(c.parents);
    lemma_be64_decodes(c.changes.len() as u64);
    lemma_sum_bytes(c.statesum);
    lemma_sum_bytes(sum_of(body));
    lemma_six_parts(h, ps, mid, cb, ss, Seq::empty());
    lemma_six_parts(h, ps, mid, cb, ss, tail);
    assert(body == h + ps + mid + cb + ss);
    assert(body =~= h + ps + mid + cb + ss + Seq::<u8>::empty());
    assert(commit_bytes(c) == h + ps + mid + cb + ss + tail);
}

/// The parents of a commit, as written, are read back.
pub proof fn lemma_parents_round(b: Seq<u8>, p: int, parents: Seq<Sum>)
    requires
        avail(b, p, 32 * (parents.len() as int)),
        field(b, p, 32 * (parents.len() as int)) == sums_bytes(parents),
    ensures
        Seq::new(parents.len(), |i: int| Sum::from_bytes(field(b, p + 32 * i, 32))) == parents,
{
    let ps = sums_bytes(parents);
    lemma_sums_bytes(parents);
    let read = Seq::new(parents.len(), |i: int| Sum::from_bytes(field(b, p + 32 * i, 32)));
    assert forall|i: int| 0 <= i < parents.len() implies #[trigger] read[i] == parents[i] by {
        lemma_part(b, p, ps, 32 * i, 32);
        assert(ps.subrange(32 * i, 32 * i + 32) == parents[i].bytes());
        lemma_sum_bytes(parents[i]);
    }
    assert(read =~= parents);
}

/// What reading a commit gives once its parts have been read.
pub proof fn lemma_parse_commit_parts(
    b: Seq<u8>,
    pos: int,
    n: int,
    meta: MetaView,
    p: int,
    changes: Seq<(u64, ChangeView)>,
    end: int,
)
    requires
        parse_head(b, pos) == Ok::<(int, MetaView, int), ReadError>((n, meta, p)),
        avail(b, p, 32 * n),
        avail(b, p + 32 * n, 16),
        marked(b, p + 32 * n, ELEMENTS@),
        parse_changes(b, p + 32 * n + 16, from_be64(field(b, p + 32 * n + 8, 8)) as nat) == Ok::<
            (Seq<(u64, ChangeView)>, int),
            ReadError,
        >((changes, end)),
        avail(b, end, 64),
    ensures
        parse_commit(b, pos) == if field(b, end + 32, 32) == sum_of(
            field(b, pos, end + 32 - pos),
        ).bytes() {
            Ok::<(CommitView, int), ReadError>(
                (
                    CommitView {
                        statesum: Sum::from_bytes(field(b, end, 32)),
                        parents: Seq::new(
                            n as nat,
                            |i: int| Sum::from_bytes(field(b, p + 32 * i, 32)),
                        ),
                        changes,
                        meta,
                    },
                    end + 64,
                ),
            )
        } else {
            Err::<(CommitView, int), ReadError>(fault("checksum invalid", end + 32, 0, 32))
        },
{
    reveal(parse_commit);
}

/// What reading gives where the bytes of a commit that its checksum covers
/// stand, with 32 bytes behind them: the commit where these 32 bytes are
/// the checksum, an error where they are not.
#[verifier::rlimit(50)]
pub proof fn lemma_commit_read(b: Seq<u8>, pos: int, c: CommitView)
    requires
        c.wf(),
        avail(b, pos, body_bytes(c).len() as int + 32),
        field(b, pos, body_bytes(c).len() as int) == body_bytes(c),
    ensures
        parse_commit(b, pos) == if field(b, pos + body_bytes(c).len(), 32) == sum_of(
            body_bytes(c),
        ).bytes() {
            Ok::<(CommitView, int), ReadError>((c, pos + body_bytes(c).len() + 32))
        } else {
            Err::<(CommitView, int), ReadError>(
                fault("checksum invalid", pos + body_bytes(c).len(), 0, 32),
            )
        },
{
    let w = body_bytes(c);
    let n = c.parents.len() as int;
    let hl = head_bytes(n as nat, c.meta).len() as int;
    let cl = changes_bytes(c.changes).len() as int;
    let q = hl + 32 * n;
    lemma_body_layout(c);
    assert(1 <= n <= 255 && c.meta.wf() && increasing(c.changes) && c.changes.len() <= u64::MAX
        && (forall|i: int| 0 <= i < c.changes.len() ==> (#[trigger] c.changes[i]).1.wf())) by {
        reveal(CommitView::wf);
    }
    lemma_part(b, pos, w, 0, hl);
    lemma_head_round(b, pos, n as nat, c.meta);
    lemma_part(b, pos, w, hl, 32 * n);
    lemma_parents_round(b, pos + hl, c.parents);
    lemma_part(b, pos, w, q, 16);
    let mid = count_bytes(ELEMENTS@, c.changes.len() as u64);
    lemma_be64_decodes(c.changes.len() as u64);
    assert(mid.subrange(0, 8) =~= ELEMENTS@);
    assert(mid.subrange(8, 16) =~= be64(c.changes.len() as u64));
    lemma_part(b, pos + q, mid, 0, 8);
    lemma_part(b, pos + q, mid, 8, 8);
    assert(marked(b, pos + q, ELEMENTS@));
    assert(from_be64(field(b, pos + q + 8, 8)) as nat == c.changes.len());
    lemma_part(b, pos, w, q + 16, cl);
    lemma_changes_round(b, pos + q + 16, c.changes);
    lemma_part(b, pos, w, q + 16 + cl, 32);
    lemma_sum_bytes(c.statesum);
    let end = pos + q + 16 + cl;
    assert(field(b, pos, end + 32 - pos) == body_bytes(c));
    lemma_parse_commit_parts(b, pos, n, c.meta, pos + hl, c.changes, end);
}

/// A commit that can be written is read back as it was written.
pub proof fn lemma_commit_round(b: Seq<u8>, pos: int, c: CommitView)
    requires
        c.wf(),
        avail(b, pos, commit_bytes(c).len() as int),
        field(b, pos, commit_bytes(c).len() as int) == commit_bytes(c),
    ensures
        parse_commit(b, pos) == Ok::<(CommitView, int), ReadError>(
            (c, pos + commit_bytes(c).len()),
        ),
        commit_bytes(c).len() > 0,
{
    let w = commit_bytes(c);
    let bl = body_bytes(c).len() as int;
    lemma_body_layout(c);
    lemma_part(b, pos, w, 0, bl);
    lemma_part(b, pos, w, bl, 32);
    lemma_commit_read(b, pos, c);
}

/// A commit whose closing checksum was damaged is not read: where one byte
/// of the 32 bytes of the checksum of a written commit is changed, reading
/// the commit fails.
pub proof fn law_commit_checksum_guards(before: Seq<u8>, c: CommitView, after: Seq<u8>, j: int, x: u8)
    requires
        c.wf(),
        body_bytes(c).len() <= j < commit_bytes(c).len(),
        x != commit_bytes(c)[j],
    ensures
        parse_commit(
            before + commit_bytes(c).update(j, x) + after,
            before.len() as int,
        ) is Err,
{
    let w = commit_bytes(c);
    let bl = body_bytes(c).len() as int;
    let b = before + w.update(j, x) + after;
    let pos = before.len() as int;
    lemma_body_layout(c);
    assert(field(b, pos, bl) =~= body_bytes(c));
    assert(field(b, pos + bl, 32)[j - bl] == x);
    assert(sum_of(body_bytes(c)).bytes()[j - bl] == w[j]) by {
        assert(w.subrange(bl, bl + 32)[j - bl] == w[j]);
    }
    lemma_commit_read(b, pos, c);
}

/// Commits that can be written, written one after the other up to the end
/// of the data, are read back as they were written.
pub proof fn lemma_commits_round(b: Seq<u8>, pos: int, cs: Seq<CommitView>)
    requires
        forall|i: int| 0 <= i < cs.len() ==> (#[trigger] cs[i]).wf(),
        avail(b, pos, commits_bytes(cs).len() as int),
        pos + commits_bytes(cs).len() == b.len(),
        field(b, pos, commits_bytes(cs).len() as int) == commits_bytes(cs),
    ensures
        parse_commits(b, pos) == (cs, None::<ReadError>),
    decreases cs.len(),
{
    if cs.len() == 0 {
        assert(parse_commits(b, pos).0 =~= cs);
    } else {
        let w = commits_bytes(cs);
        let first = commit_bytes(cs.first());
        let rest = commits_bytes(cs.drop_first());
        assert(w.subrange(0, first.len() as int) =~= first);
        assert(w.subrange(first.len() as int, w.len() as int) =~= rest);
        lemma_part(b, pos, w, 0, first.len() as int);
        lemma_part(b, pos, w, first.len() as int, rest.len() as int);
        lemma_commit_round(b, pos, cs.first());
        assert forall|i: int| 0 <= i < cs.drop_first().len() implies (
        #[trigger] cs.drop_first()[i]).wf() by {
            assert(cs.drop_first()[i] == cs[i + 1]);
        }
        lemma_commits_round(b, pos + first.len(), cs.drop_first());
        assert(seq![cs.first()] + cs.drop_first() =~= cs);
    }
}

/// Reading a log gives back the commits that were written to it: for
/// commits that can be written, and whatever stands before the log in the
/// data.
pub proof fn law_log_round_trip(before: Seq<u8>, cs: Seq<CommitView>)
    requires
        forall|i: int| 0 <= i < cs.len() ==> (#[trigger] cs[i]).wf(),
    ensures
        parse_log(before + log_bytes(cs), before.len() as int) == (cs, None::<ReadError>),
{
    let b = before + log_bytes(cs);
    let pos = before.len() as int;
    let w = log_bytes(cs);
    assert(field(b, pos, w.len() as int) =~= w);
    assert(w.subrange(0, 16) =~= LOG_START@);
    assert(w.subrange(16, w.len() as int) =~= commits_bytes(cs));
    lemma_part(b, pos, w, 0, 16);
    lemma_part(b, pos, w, 16, w.len() - 16);
    lemma_commits_round(b, pos + 16, cs);
}

} // verus!
