//! What is written as a header is read back as it was.

use vstd::prelude::*;
use vstd::utf8::encode_utf8;
use crate::error::ReadError;
use crate::readwrite::commitlog::count_bytes;
use crate::readwrite::commitlog_laws::lemma_part;
use crate::readwrite::commitlog_laws::lemma_six_parts;
use crate::readwrite::header::FileType;
use crate::readwrite::header::HEAD_COMMITLOG;
use crate::readwrite::header::HEAD_END;
use crate::readwrite::header::HEAD_SNAPSHOT;
use crate::readwrite::header::HeaderView;
use crate::readwrite::header::PART_ID;
use crate::readwrite::header::REPO_NAME;
use crate::readwrite::header::USER_DATA;
use crate::readwrite::header::USER_TEXT;
use crate::readwrite::header::UserView;
use crate::readwrite::header::block_bytes;
use crate::readwrite::header::block_mark;
use crate::readwrite::header::block_payload;
use crate::readwrite::header::blocks_bytes;
use crate::readwrite::header::header_bytes;
use crate::readwrite::header::kind_bytes;
use crate::readwrite::header::name_ok;
use crate::readwrite::header::parse_blocks;
use crate::readwrite::header::parse_header;
use crate::readwrite::header::part_bytes;
use crate::wire::avail;
use crate::wire::be64;
use crate::wire::field;
use crate::wire::lemma_be64_decodes;
use crate::wire::marked;
use crate::wire::pad_len;
use crate::wire::padded;

verus! {

/// Whether a header can be written: the name of the repository is allowed,
/// the identifier of the partition, where there is one, is one, and the
/// lengths of the name and of the payload of every block of user data fit
/// in 64 bits.
pub open spec fn writable_header(h: HeaderView) -> bool {
    &&& name_ok(encode_utf8(h.name))
    &&& encode_utf8(h.name).len() <= u64::MAX
    &&& h.part_id matches Some(p) ==> p.wf()
    &&& forall|i: int| 0 <= i < h.user.len() ==> block_payload(#[trigger] h.user[i]).len() <= u64::MAX
}

/// The place behind the name of the repository in a header.
pub open spec fn after_name(name: Seq<u8>) -> int {
    (32 + name.len() + pad_len(name.len())) as int
}

/// The length of a payload with its padding.
pub open spec fn padded_len(payload: Seq<u8>) -> int {
    (payload.len() + pad_len(payload.len())) as int
}

/// The bytes of blocks start with the bytes of the first block.
pub proof fn lemma_blocks_front(x: UserView, t: Seq<UserView>)
    ensures
        blocks_bytes(seq![x] + t) == block_bytes(x) + blocks_bytes(t),
    decreases t.len(),
{
    let s = seq![x] + t;
    if t.len() == 0 {
        assert(s.drop_last() =~= Seq::<UserView>::empty());
        assert(s.last() == x);
        assert(blocks_bytes(s.drop_last()) =~= Seq::<u8>::empty());
        assert(blocks_bytes(t) =~= Seq::<u8>::empty());
        assert(blocks_bytes(s) == blocks_bytes(s.drop_last()) + block_bytes(s.last()));
        assert(blocks_bytes(s) =~= block_bytes(x));
        assert(block_bytes(x) + blocks_bytes(t) =~= block_bytes(x));
    } else {
        assert(s.drop_last() =~= seq![x] + t.drop_last());
        assert(s.last() == t.last());
        lemma_blocks_front(x, t.drop_last());
        assert(blocks_bytes(s) =~= block_bytes(x) + blocks_bytes(t));
    }
}

/// A field that starts with a marker and a number.
pub proof fn lemma_count_field(b: Seq<u8>, pos: int, whole: Seq<u8>, mark: Seq<u8>, n: u64)
    requires
        mark.len() == 8,
        avail(b, pos, whole.len() as int),
        field(b, pos, whole.len() as int) == whole,
        whole.len() >= 16,
        whole.subrange(0, 16) == count_bytes(mark, n),
    ensures
        avail(b, pos, 16),
        marked(b, pos, mark),
        crate::wire::from_be64(field(b, pos + 8, 8)) == n,
        forall|k: int| 0 <= k < 8 ==> b[pos + k] == mark[k],
{
    lemma_be64_decodes(n);
    let c = count_bytes(mark, n);
    assert(c.subrange(0, 8) =~= mark);
    assert(c.subrange(8, 16) =~= be64(n));
    lemma_part(b, pos, whole, 0, 16);
    lemma_part(b, pos, c, 0, 8);
    lemma_part(b, pos, c, 8, 8);
    assert forall|k: int| 0 <= k < 8 implies b[pos + k] == mark[k] by {
        assert(field(b, pos, 8)[k] == b[pos + k]);
    }
}

/// What reading blocks gives at the end of the header.
pub proof fn lemma_parse_blocks_end(b: Seq<u8>, pos: int, acc: Seq<UserView>)
    requires
        marked(b, pos, HEAD_END@),
    ensures
        parse_blocks(b, pos, acc) == Ok::<(Seq<UserView>, int), ReadError>((acc, pos + 16)),
{
    reveal_with_fuel(parse_blocks, 2);
}

/// What reading blocks gives at a block: what it gives behind the block,
/// with the block read.
pub proof fn lemma_parse_blocks_step(b: Seq<u8>, pos: int, acc: Seq<UserView>, x: UserView)
    requires
        avail(b, pos, 16),
        !marked(b, pos, HEAD_END@),
        marked(b, pos, block_mark(x)),
        x is Text ==> !marked(b, pos, USER_DATA@),
        block_payload(x).len() <= u64::MAX,
        crate::wire::from_be64(field(b, pos + 8, 8)) == block_payload(x).len(),
        avail(b, pos + 16, padded_len(block_payload(x))),
        field(b, pos + 16, block_payload(x).len() as int) == block_payload(x),
    ensures
        parse_blocks(b, pos, acc) == parse_blocks(
            b,
            pos + 16 + padded_len(block_payload(x)),
            acc.push(x),
        ),
{
    reveal_with_fuel(parse_blocks, 2);
    match x {
        UserView::Data(d) => {},
        UserView::Text(text) => {
            vstd::utf8::encode_utf8_valid_utf8(text);
            vstd::utf8::encode_utf8_decode_utf8(text);
        },
    }
}

/// Blocks of user data and the end of the header, as written, are read
/// back behind the blocks that were read before.
#[verifier::rlimit(50)]
pub proof fn lemma_blocks_round(b: Seq<u8>, pos: int, acc: Seq<UserView>, s: Seq<UserView>)
    requires
        forall|i: int| 0 <= i < s.len() ==> block_payload(#[trigger] s[i]).len() <= u64::MAX,
        avail(b, pos, blocks_bytes(s).len() as int + 16),
        field(b, pos, blocks_bytes(s).len() as int + 16) == blocks_bytes(s) + HEAD_END@,
    ensures
        parse_blocks(b, pos, acc) == Ok::<(Seq<UserView>, int), ReadError>(
            (acc + s, pos + blocks_bytes(s).len() + 16),
        ),
    decreases s.len(),
{
    let whole = blocks_bytes(s) + HEAD_END@;
    if s.len() == 0 {
        assert(blocks_bytes(s) =~= Seq::<u8>::empty());
        assert(whole =~= HEAD_END@);
        assert(acc + s =~= acc);
        assert(marked(b, pos, HEAD_END@));
        lemma_parse_blocks_end(b, pos, acc);
    } else {
        let x = s[0];
        let t = s.drop_first();
        assert(s =~= seq![x] + t);
        lemma_blocks_front(x, t);
        let payload = block_payload(x);
        let l = payload.len() as int;
        let pad = pad_len(payload.len()) as int;
        let head = count_bytes(block_mark(x), l as u64);
        let first = block_bytes(x);
        let rest = blocks_bytes(t) + HEAD_END@;
        lemma_be64_decodes(l as u64);
        assert(block_mark(x).len() == 8);
        assert(head.len() == 16);
        assert(first.len() == 16 + l + pad);
        assert(whole =~= first + rest);
        assert(whole.subrange(0, 16) =~= head);
        assert(whole.subrange(16, 16 + l) =~= payload);
        assert(whole.subrange(16 + l + pad, whole.len() as int) =~= rest);
        lemma_count_field(b, pos, whole, block_mark(x), l as u64);
        lemma_part(b, pos, whole, 16, l);
        lemma_part(b, pos, whole, 16, l + pad);
        lemma_part(b, pos, whole, 16 + l + pad, rest.len() as int);
        assert(USER_DATA@[0] == 85u8 && USER_TEXT@[0] == 85u8 && HEAD_END@[0] == 72u8
            && USER_DATA@[4] == 68u8 && USER_TEXT@[4] == 84u8);
        assert(b[pos] == 85u8) by {
            assert(block_mark(x)[0] == 85u8);
        }
        assert(!marked(b, pos, HEAD_END@)) by {
            if marked(b, pos, HEAD_END@) {
                assert(field(b, pos, 16)[0] == b[pos]);
            }
        }
        if x is Text {
            assert(!marked(b, pos, USER_DATA@)) by {
                if marked(b, pos, USER_DATA@) {
                    assert(field(b, pos, 8)[4] == b[pos + 4]);
                    assert(b[pos + 4] == block_mark(x)[4]);
                }
            }
        }
        assert forall|i: int| 0 <= i < t.len() implies block_payload(#[trigger] t[i]).len()
            <= u64::MAX by {
            assert(t[i] == s[i + 1]);
        }
        let next = pos + 16 + l + pad;
        lemma_parse_blocks_step(b, pos, acc, x);
        lemma_blocks_round(b, next, acc.push(x), t);
        assert(acc.push(x) + t =~= acc + s);
    }
}

/// What reading a header gives once its parts have been read.
pub proof fn lemma_parse_header_parts(
    b: Seq<u8>,
    ftype: FileType,
    name: Seq<u8>,
    part: Option<crate::ids::PartId>,
    user: Seq<UserView>,
    end: int,
)
    requires
        avail(b, 0, 32),
        match ftype {
            FileType::Snapshot(v) => marked(b, 0, HEAD_SNAPSHOT@) && b[15] == v,
            FileType::CommitLog(v) => !marked(b, 0, HEAD_SNAPSHOT@) && marked(b, 0, HEAD_COMMITLOG@)
                && b[15] == v,
        },
        marked(b, 16, REPO_NAME@),
        crate::wire::from_be64(field(b, 24, 8)) == name.len(),
        avail(b, 32, after_name(name) - 32),
        field(b, 32, name.len() as int) == name,
        name_ok(name),
        vstd::utf8::valid_utf8(name),
        match part {
            Some(id) => marked(b, after_name(name), PART_ID@) && avail(
                b,
                after_name(name),
                16,
            ) && crate::wire::from_be64(field(b, after_name(name) + 8, 8))
                == id.id && id.wf() && parse_blocks(
                b,
                after_name(name) + 16,
                Seq::empty(),
            ) == Ok::<(Seq<UserView>, int), ReadError>((user, end)),
            None => !marked(b, after_name(name), PART_ID@) && parse_blocks(
                b,
                after_name(name),
                Seq::empty(),
            ) == Ok::<(Seq<UserView>, int), ReadError>((user, end)),
        },
    ensures
        parse_header(b) == Ok::<(HeaderView, int), ReadError>(
            (HeaderView { ftype, name: vstd::utf8::decode_utf8(name), part_id: part, user }, end),
        ),
{
    reveal(parse_header);
}

/// Reading a header gives back the header that was written: for a header
/// that can be written, and whatever follows it.
#[verifier::rlimit(50)]
pub proof fn law_header_round_trip(h: HeaderView, after: Seq<u8>)
    requires
        writable_header(h),
    ensures
        parse_header(header_bytes(h) + after) == Ok::<(HeaderView, int), ReadError>(
            (h, header_bytes(h).len() as int),
        ),
{
    let w = header_bytes(h);
    let b = w + after;
    let kind = kind_bytes(h.ftype);
    let name = encode_utf8(h.name);
    let nl = name.len() as int;
    let pad = pad_len(name.len()) as int;
    let count = count_bytes(REPO_NAME@, nl as u64);
    let part = part_bytes(h.part_id);
    let blocks = blocks_bytes(h.user);
    lemma_be64_decodes(nl as u64);
    assert(kind.len() == 16 && count.len() == 16 && padded(name).len() == nl + pad);
    lemma_six_parts(kind, count, padded(name), part, blocks, HEAD_END@);
    assert(w == kind + count + padded(name) + part + blocks + HEAD_END@);
    assert(field(b, 0, w.len() as int) =~= w);
    let p = 32 + nl + pad;
    let pl = part.len() as int;
    let bl = blocks.len() as int;
    lemma_part(b, 0, w, 0, 32);
    lemma_part(b, 0, w, 0, 16);
    lemma_part(b, 0, w, 16, 16);
    lemma_part(b, 0, w, 32, nl + pad);
    assert(padded(name).subrange(0, nl) =~= name);
    lemma_part(b, 32, padded(name), 0, nl);
    assert(kind.subrange(0, 8) =~= match h.ftype {
        FileType::Snapshot(_) => HEAD_SNAPSHOT@,
        FileType::CommitLog(_) => HEAD_COMMITLOG@,
    });
    lemma_part(b, 0, kind, 0, 8);
    assert(b[15] == kind[15]) by {
        assert(field(b, 0, 16)[15] == b[15]);
    }
    assert(HEAD_SNAPSHOT@[6] == 83u8 && HEAD_COMMITLOG@[6] == 67u8);
    if h.ftype is CommitLog {
        assert(!marked(b, 0, HEAD_SNAPSHOT@)) by {
            if marked(b, 0, HEAD_SNAPSHOT@) {
                assert(field(b, 0, 8)[6] == HEAD_COMMITLOG@[6]);
            }
        }
    }
    assert(count.subrange(0, 16) =~= count);
    lemma_count_field(b, 16, count, REPO_NAME@, nl as u64);
    vstd::utf8::encode_utf8_valid_utf8(h.name);
    vstd::utf8::encode_utf8_decode_utf8(h.name);
    let tail = blocks + HEAD_END@;
    assert(w.subrange(p + pl, w.len() as int) =~= tail);
    lemma_part(b, 0, w, p + pl, bl + 16);
    lemma_blocks_round(b, p + pl, Seq::empty(), h.user);
    assert(Seq::<UserView>::empty() + h.user =~= h.user);
    assert(PART_ID@[0] == 80u8 && USER_DATA@[0] == 85u8 && USER_TEXT@[0] == 85u8 && HEAD_END@[0]
        == 72u8);
    match h.part_id {
        Some(id) => {
            lemma_be64_decodes(id.id);
            assert(part.len() == 16);
            lemma_part(b, 0, w, p, 16);
            assert(part.subrange(0, 16) =~= part);
            lemma_count_field(b, p, part, PART_ID@, id.id);
        },
        None => {
            assert(pl == 0);
            assert(!marked(b, p, PART_ID@)) by {
                if marked(b, p, PART_ID@) {
                    assert(field(b, p, 8)[0] == b[p]);
                    assert(field(b, p, bl + 16)[0] == b[p]);
                    if h.user.len() == 0 {
                        assert(blocks =~= Seq::<u8>::empty());
                        assert(tail =~= HEAD_END@);
                    } else {
                        assert(h.user =~= seq![h.user[0]] + h.user.drop_first());
                        lemma_blocks_front(h.user[0], h.user.drop_first());
                        assert(block_mark(h.user[0]).len() == 8);
                        assert(tail[0] == block_mark(h.user[0])[0]);
                    }
                }
            }
        },
    }
    lemma_parse_header_parts(b, h.ftype, name, h.part_id, h.user, w.len() as int);
}

} // verus!
