//! The header that starts every file.
//!
//! The first sixteen bytes name the kind of the file and, in their last
//! byte, the version of the format. The name of the repository follows,
//! with its length before it; the identifier of the partition may follow;
//! blocks of user data may follow; and a marker ends the header. Every
//! field is padded to a multiple of sixteen bytes.

use vstd::prelude::*;
use vstd::string::StringSliceAdditionalSpecFns;
use vstd::utf8::decode_utf8;
use vstd::utf8::encode_utf8;
use vstd::utf8::valid_utf8;
use crate::elt::utf8_text;
use crate::error::Error;
use crate::error::ReadError;
use crate::ids::PartId;
use crate::readwrite::commitlog::count_bytes;
use crate::readwrite::commitlog::fault;
use crate::readwrite::commitlog::short;
use crate::readwrite::commitlog::short_at;
use crate::wire::append;
use crate::wire::append_padded;
use crate::wire::append_u64;
use crate::wire::avail;
use crate::wire::be64;
use crate::wire::copy_range;
use crate::wire::field;
use crate::wire::from_be64;
use crate::wire::is_marked;
use crate::wire::marked;
use crate::wire::pad_len;
use crate::wire::padded;
use crate::wire::padding_for;
use crate::wire::u64_at;
use crate::wire::zeros;

verus! {

/// `PIPPINSS`: a snapshot file.
pub const HEAD_SNAPSHOT: [u8; 8] = [80, 73, 80, 80, 73, 78, 83, 83];

/// `PIPPINCL`: a commit log file.
pub const HEAD_COMMITLOG: [u8; 8] = [80, 73, 80, 80, 73, 78, 67, 76];

/// `REPONAME`: what stands before the length of the repository's name.
pub const REPO_NAME: [u8; 8] = [82, 69, 80, 79, 78, 65, 77, 69];

/// `PARTID` and two NUL bytes: what stands before the partition identifier.
pub const PART_ID: [u8; 8] = [80, 65, 82, 84, 73, 68, 0, 0];

/// `USERDATA`: a block of user data that are bytes.
pub const USER_DATA: [u8; 8] = [85, 83, 69, 82, 68, 65, 84, 65];

/// `USERTEXT`: a block of user data that are a text.
pub const USER_TEXT: [u8; 8] = [85, 83, 69, 82, 84, 69, 88, 84];

/// `HEADER END` and six NUL bytes: the end of the header.
pub const HEAD_END: [u8; 16] = [72, 69, 65, 68, 69, 82, 32, 69, 78, 68, 0, 0, 0, 0, 0, 0];

/// The kind of a file, with the version of its format.
#[derive(Clone, Copy, Debug, PartialEq, Eq, Structural)]
pub enum FileType {
    Snapshot(u8),
    CommitLog(u8),
}

/// A block of user data in a header.
#[derive(Clone, Debug, PartialEq, Eq)]
pub enum UserData {
    Data(Vec<u8>),
    Text(String),
}

/// What a block of user data holds.
pub enum UserView {
    Data(Seq<u8>),
    Text(Seq<char>),
}

/// The header of a file.
#[derive(Clone, Debug, PartialEq, Eq)]
pub struct FileHeader {
    pub ftype: FileType,
    pub name: String,
    pub part_id: Option<PartId>,
    pub user: Vec<UserData>,
}

/// What a header holds.
pub struct HeaderView {
    pub ftype: FileType,
    pub name: Seq<char>,
    pub part_id: Option<PartId>,
    pub user: Seq<UserView>,
}

impl View for UserData {
    type V = UserView;

    open spec fn view(&self) -> UserView {
        match self {
            UserData::Data(d) => UserView::Data(d@),
            UserData::Text(t) => UserView::Text(t@),
        }
    }
}

/// The views of blocks of user data.
pub open spec fn user_views(s: Seq<UserData>) -> Seq<UserView> {
    s.map_values(|u: UserData| u@)
}

impl View for FileHeader {
    type V = HeaderView;

    open spec fn view(&self) -> HeaderView {
        HeaderView {
            ftype: self.ftype,
            name: self.name@,
            part_id: self.part_id,
            user: user_views(self.user@),
        }
    }
}

impl UserData {
    /// A copy of the block.
    pub fn duplicate(&self) -> (u: UserData)
        ensures
            u@ == self@,
    {
        match self {
            UserData::Data(d) => {
                let c = copy_range(d.as_slice(), 0, d.len());
                assert(d@.subrange(0, d@.len() as int) =~= d@);
                UserData::Data(c)
            },
            UserData::Text(t) => UserData::Text(t.clone()),
        }
    }
}

/// Copies blocks of user data.
pub fn copy_user(user: &Vec<UserData>) -> (r: Vec<UserData>)
    ensures
        user_views(r@) == user_views(user@),
{
    let mut r: Vec<UserData> = Vec::new();
    let mut i: usize = 0;
    while i < user.len()
        invariant
            i <= user.len(),
            r@.len() == i,
            forall|j: int| 0 <= j < i ==> (#[trigger] r@[j])@ == user@[j]@,
        decreases user.len() - i,
    {
        r.push(user[i].duplicate());
        i += 1;
    }
    assert(user_views(r@) =~= user_views(user@));
    r
}

impl FileType {
    /// The version of the format.
    pub fn ver(&self) -> (v: u8)
        ensures
            v == match *self {
                FileType::Snapshot(v) => v,
                FileType::CommitLog(v) => v,
            },
    {
        match *self {
            FileType::Snapshot(v) => v,
            FileType::CommitLog(v) => v,
        }
    }
}

/// Whether the bytes of a name are allowed: there is at least one, and
/// none is NUL.
pub open spec fn name_ok(name: Seq<u8>) -> bool {
    name.len() > 0 && forall|i: int| 0 <= i < name.len() ==> name[i] != 0
}

/// Tests whether `name` can be the name of a repository: it is not empty
/// and holds no NUL.
pub fn validate_repo_name(name: &str) -> (r: Result<(), Error>)
    ensures
        r is Ok <==> name_ok(name.spec_bytes()),
        r matches Err(e) ==> e == Error::arg_spec(
            "the name of a repository is not empty and holds no NUL",
        ),
{
    let b = name.as_bytes();
    if b.len() == 0 {
        return Err(Error::arg("the name of a repository is not empty and holds no NUL"));
    }
    let mut i: usize = 0;
    while i < b.len()
        invariant
            i <= b.len(),
            b@ == name.spec_bytes(),
            forall|j: int| 0 <= j < i ==> b@[j] != 0,
        decreases b.len() - i,
    {
        if b[i] == 0 {
            assert(name.spec_bytes()[i as int] == 0);
            return Err(Error::arg("the name of a repository is not empty and holds no NUL"));
        }
        i += 1;
    }
    Ok(())
}

/// The first sixteen bytes of a file of the given kind.
pub open spec fn kind_bytes(ftype: FileType) -> Seq<u8> {
    match ftype {
        FileType::Snapshot(v) => HEAD_SNAPSHOT@ + zeros(7) + seq![v],
        FileType::CommitLog(v) => HEAD_COMMITLOG@ + zeros(7) + seq![v],
    }
}

/// The marker of a block of user data.
pub open spec fn block_mark(u: UserView) -> Seq<u8> {
    match u {
        UserView::Data(_) => USER_DATA@,
        UserView::Text(_) => USER_TEXT@,
    }
}

/// The payload of a block of user data: the bytes, or the text in UTF-8.
pub open spec fn block_payload(u: UserView) -> Seq<u8> {
    match u {
        UserView::Data(d) => d,
        UserView::Text(t) => encode_utf8(t),
    }
}

/// The bytes of a block of user data.
pub open spec fn block_bytes(u: UserView) -> Seq<u8> {
    count_bytes(block_mark(u), block_payload(u).len() as u64) + padded(block_payload(u))
}

/// The bytes of the identifier of a partition in a header; none where the
/// header names no partition.
pub open spec fn part_bytes(part_id: Option<PartId>) -> Seq<u8> {
    match part_id {
        Some(p) => count_bytes(PART_ID@, p.id),
        None => Seq::empty(),
    }
}

/// The bytes of blocks of user data, one after the other.
pub open spec fn blocks_bytes(s: Seq<UserView>) -> Seq<u8>
    decreases s.len(),
{
    if s.len() == 0 {
        Seq::empty()
    } else {
        blocks_bytes(s.drop_last()) + block_bytes(s.last())
    }
}

/// The bytes of a header.
pub open spec fn header_bytes(h: HeaderView) -> Seq<u8> {
    kind_bytes(h.ftype) + count_bytes(REPO_NAME@, encode_utf8(h.name).len() as u64) + padded(
        encode_utf8(h.name),
    ) + part_bytes(h.part_id) + blocks_bytes(h.user) + HEAD_END@
}

/// Reads blocks of user data from `pos` up to the marker that ends the
/// header, behind the blocks `acc` that were read already.
#[verifier::opaque]
pub open spec fn parse_blocks(b: Seq<u8>, pos: int, acc: Seq<UserView>) -> Result<
    (Seq<UserView>, int),
    ReadError,
>
    decreases b.len() - pos,
{
    let len = from_be64(field(b, pos + 8, 8)) as int;
    let data = field(b, pos + 16, len);
    let next = pos + 16 + len + pad_len(len as nat);
    if !avail(b, pos, 16) {
        Err(short(b, pos))
    } else if marked(b, pos, HEAD_END@) {
        Ok((acc, pos + 16))
    } else if !marked(b, pos, USER_DATA@) && !marked(b, pos, USER_TEXT@) {
        Err(fault("unexpected contents (expected user data or HEADER END)", pos, 0, 8))
    } else if !avail(b, pos + 16, len + pad_len(len as nat)) {
        Err(short(b, pos + 16))
    } else if marked(b, pos, USER_DATA@) {
        parse_blocks(b, next, acc.push(UserView::Data(data)))
    } else if !valid_utf8(data) {
        Err(fault("content not valid UTF-8", pos + 16, 0, len))
    } else {
        parse_blocks(b, next, acc.push(UserView::Text(decode_utf8(data))))
    }
}

/// Reads the header that starts `b`: the header and the place of what
/// follows it.
#[verifier::opaque]
pub open spec fn parse_header(b: Seq<u8>) -> Result<(HeaderView, int), ReadError> {
    let nl = from_be64(field(b, 24, 8)) as int;
    let name = field(b, 32, nl);
    let p = 32 + nl + pad_len(nl as nat);
    let with_part = marked(b, p, PART_ID@);
    let id = from_be64(field(b, p + 8, 8));
    if !avail(b, 0, 32) {
        Err(short(b, 0))
    } else if !marked(b, 0, HEAD_SNAPSHOT@) && !marked(b, 0, HEAD_COMMITLOG@) {
        Err(fault("unexpected contents (expected PIPPINSS or PIPPINCL)", 0, 0, 8))
    } else if !marked(b, 16, REPO_NAME@) {
        Err(fault("unexpected contents (expected REPONAME)", 16, 0, 8))
    } else if !avail(b, 32, nl + pad_len(nl as nat)) {
        Err(short(b, 32))
    } else if !name_ok(name) || !valid_utf8(name) {
        Err(fault("invalid repository name", 32, 0, nl))
    } else if with_part && !avail(b, p, 16) {
        Err(short(b, p))
    } else if with_part && !(PartId { id }).wf() {
        Err(fault("invalid partition identifier", p, 8, 16))
    } else {
        match parse_blocks(
            b,
            if with_part {
                p + 16
            } else {
                p
            },
            Seq::empty(),
        ) {
            Err(e) => Err(e),
            Ok((user, next)) => Ok(
                (
                    HeaderView {
                        ftype: if marked(b, 0, HEAD_SNAPSHOT@) {
                            FileType::Snapshot(b[15])
                        } else {
                            FileType::CommitLog(b[15])
                        },
                        name: decode_utf8(name),
                        part_id: if with_part {
                            Some(PartId { id })
                        } else {
                            None
                        },
                        user,
                    },
                    next,
                ),
            ),
        }
    }
}

fn names_ok(b: &[u8]) -> (r: bool)
    ensures
        r == name_ok(b@),
{
    if b.len() == 0 {
        return false;
    }
    let mut i: usize = 0;
    while i < b.len()
        invariant
            i <= b.len(),
            forall|j: int| 0 <= j < i ==> b@[j] != 0,
        decreases b.len() - i,
    {
        if b[i] == 0 {
            assert(b@[i as int] == 0);
            return false;
        }
        i += 1;
    }
    true
}

fn read_blocks(bytes: &[u8], pos: usize) -> (r: Result<(Vec<UserData>, usize), ReadError>)
    requires
        pos <= bytes.len(),
    ensures
        match parse_blocks(bytes@, pos as int, Seq::empty()) {
            Ok(h) => r matches Ok(v) && user_views(v.0@) == h.0 && v.1 == h.1 && pos < v.1
                <= bytes.len(),
            Err(e) => r matches Err(x) && x == e,
        },
{
    let len = bytes.len();
    let mut user: Vec<UserData> = Vec::new();
    let mut p = pos;
    assert(user_views(user@) =~= Seq::empty());
    proof {
        reveal_with_fuel(parse_blocks, 2);
    }
    loop
        invariant
            pos <= p <= bytes.len(),
            len == bytes.len(),
            parse_blocks(bytes@, pos as int, Seq::empty()) == parse_blocks(
                bytes@,
                p as int,
                user_views(user@),
            ),
        decreases bytes.len() - p,
    {
        proof {
            reveal_with_fuel(parse_blocks, 2);
        }
        if len - p < 16 {
            return Err(short_at(bytes, p));
        }
        if is_marked(bytes, p, HEAD_END.as_slice()) {
            return Ok((user, p + 16));
        }
        let data = is_marked(bytes, p, USER_DATA.as_slice());
        if !data && !is_marked(bytes, p, USER_TEXT.as_slice()) {
            return Err(
                ReadError {
                    msg: "unexpected contents (expected user data or HEADER END)",
                    pos: p,
                    off_start: 0,
                    off_end: 8,
                },
            );
        }
        let n64 = u64_at(bytes, p + 8);
        let q = p + 16;
        if n64 > (len - q) as u64 {
            return Err(short_at(bytes, q));
        }
        let n = n64 as usize;
        let pad = padding_for(n);
        if pad > len - q - n {
            return Err(short_at(bytes, q));
        }
        let payload = copy_range(bytes, q, q + n);
        let block = if data {
            UserData::Data(payload)
        } else {
            match utf8_text(payload) {
                Some(t) => UserData::Text(t),
                None => {
                    return Err(
                        ReadError {
                            msg: "content not valid UTF-8",
                            pos: q,
                            off_start: 0,
                            off_end: n,
                        },
                    );
                },
            }
        };
        proof {
            assert(user_views(user@.push(block)) =~= user_views(user@).push(block@));
        }
        user.push(block);
        p = q + n + pad;
    }
}

/// Reads the header that starts `bytes`: the header, and the place of what
/// follows it.
pub fn read_head(bytes: &[u8]) -> (r: Result<(FileHeader, usize), Error>)
    ensures
        match parse_header(bytes@) {
            Ok(h) => r matches Ok(v) && v.0@ == h.0 && v.1 == h.1 && v.1 <= bytes.len(),
            Err(e) => r matches Err(x) && x == Error::Read(e),
        },
{
    proof {
        reveal(parse_header);
    }
    let len = bytes.len();
    if len < 32 {
        return Err(Error::Read(short_at(bytes, 0)));
    }
    let snapshot = is_marked(bytes, 0, HEAD_SNAPSHOT.as_slice());
    if !snapshot && !is_marked(bytes, 0, HEAD_COMMITLOG.as_slice()) {
        return Err(
            Error::Read(
                ReadError {
                    msg: "unexpected contents (expected PIPPINSS or PIPPINCL)",
                    pos: 0,
                    off_start: 0,
                    off_end: 8,
                },
            ),
        );
    }
    let ftype = if snapshot {
        FileType::Snapshot(bytes[15])
    } else {
        FileType::CommitLog(bytes[15])
    };
    if !is_marked(bytes, 16, REPO_NAME.as_slice()) {
        return Err(
            Error::Read(
                ReadError {
                    msg: "unexpected contents (expected REPONAME)",
                    pos: 16,
                    off_start: 0,
                    off_end: 8,
                },
            ),
        );
    }
    let nl64 = u64_at(bytes, 24);
    if nl64 > (len - 32) as u64 {
        return Err(Error::Read(short_at(bytes, 32)));
    }
    let nl = nl64 as usize;
    let pad = padding_for(nl);
    if pad > len - 32 - nl {
        return Err(Error::Read(short_at(bytes, 32)));
    }
    let name_bytes = copy_range(bytes, 32, 32 + nl);
    if !names_ok(name_bytes.as_slice()) {
        return Err(
            Error::Read(
                ReadError { msg: "invalid repository name", pos: 32, off_start: 0, off_end: nl },
            ),
        );
    }
    let name = match utf8_text(name_bytes) {
        Some(t) => t,
        None => {
            return Err(
                Error::Read(
                    ReadError {
                        msg: "invalid repository name",
                        pos: 32,
                        off_start: 0,
                        off_end: nl,
                    },
                ),
            );
        },
    };
    let p = 32 + nl + pad;
    let with_part = is_marked(bytes, p, PART_ID.as_slice());
    let mut part_id: Option<PartId> = None;
    let mut q = p;
    if with_part {
        if len - p < 16 {
            return Err(Error::Read(short_at(bytes, p)));
        }
        match PartId::try_from(u64_at(bytes, p + 8)) {
            Some(id) => {
                part_id = Some(id);
            },
            None => {
                return Err(
                    Error::Read(
                        ReadError {
                            msg: "invalid partition identifier",
                            pos: p,
                            off_start: 8,
                            off_end: 16,
                        },
                    ),
                );
            },
        }
        q = p + 16;
    }
    match read_blocks(bytes, q) {
        Err(e) => Err(Error::Read(e)),
        Ok((user, next)) => Ok((FileHeader { ftype, name, part_id, user }, next)),
    }
}

fn write_blocks(user: &Vec<UserData>, w: &mut Vec<u8>)
    ensures
        final(w)@ == old(w)@ + blocks_bytes(user_views(user@)),
{
    let mut i: usize = 0;
    let ghost all = user_views(user@);
    while i < user.len()
        invariant
            i <= user.len(),
            all == user_views(user@),
            w@ == old(w)@ + blocks_bytes(all.subrange(0, i as int)),
        decreases user.len() - i,
    {
        match &user[i] {
            UserData::Data(d) => {
                append(w, USER_DATA.as_slice());
                append_u64(w, d.len() as u64);
                append_padded(w, d.as_slice());
            },
            UserData::Text(t) => {
                let b = t.as_str().as_bytes();
                append(w, USER_TEXT.as_slice());
                append_u64(w, b.len() as u64);
                append_padded(w, b);
            },
        }
        proof {
            let s = all.subrange(0, i + 1);
            assert(s.drop_last() =~= all.subrange(0, i as int));
            assert(s.last() == user@[i as int]@);
            assert(w@ =~= old(w)@ + blocks_bytes(s));
        }
        i += 1;
    }
    assert(all.subrange(0, all.len() as int) =~= all);
}

/// Writes `header` behind what `writer` holds. Fails, and writes nothing,
/// where the name of the repository is not allowed.
pub fn write_head(header: &FileHeader, writer: &mut Vec<u8>) -> (r: Result<(), Error>)
    ensures
        r is Ok <==> name_ok(encode_utf8(header@.name)),
        r is Ok ==> final(writer)@ == old(writer)@ + header_bytes(header@),
        r matches Err(e) ==> e == Error::arg_spec(
            "the name of a repository is not empty and holds no NUL",
        ) && final(writer)@ == old(writer)@,
{
    match validate_repo_name(header.name.as_str()) {
        Ok(()) => {},
        Err(e) => {
            return Err(e);
        },
    }
    match header.ftype {
        FileType::Snapshot(v) => {
            append(writer, HEAD_SNAPSHOT.as_slice());
            crate::wire::append_zeros(writer, 7);
            writer.push(v);
        },
        FileType::CommitLog(v) => {
            append(writer, HEAD_COMMITLOG.as_slice());
            crate::wire::append_zeros(writer, 7);
            writer.push(v);
        },
    }
    assert(writer@ =~= old(writer)@ + kind_bytes(header@.ftype));
    let name = header.name.as_str().as_bytes();
    append(writer, REPO_NAME.as_slice());
    append_u64(writer, name.len() as u64);
    append_padded(writer, name);
    match header.part_id {
        Some(p) => {
            append(writer, PART_ID.as_slice());
            append_u64(writer, p.id);
        },
        None => {},
    }
    write_blocks(&header.user, writer);
    append(writer, HEAD_END.as_slice());
    assert(writer@ =~= old(writer)@ + header_bytes(header@));
    Ok(())
}

} // verus!
