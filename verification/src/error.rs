//! The errors of the library.

use vstd::prelude::*;
use vstd::string::StringExecFns;
use crate::text::decimal;
use crate::text::hex_pair;
use crate::text::lossy;
use crate::text::lossy_text;
use crate::text::push_decimal;
use crate::text::push_hex;
use crate::text::push_repeated;
use crate::text::repeated;

verus! {

/// A failure while reading a snapshot or a commit log: the structure or a
/// checksum is wrong. `pos` is where the field that failed starts, and
/// `off_start..off_end` are the bytes of the field that are at fault.
#[derive(Clone, Copy, Debug, PartialEq, Eq)]
pub struct ReadError {
    pub msg: &'static str,
    pub pos: usize,
    pub off_start: usize,
    pub off_end: usize,
}

/// An invalid argument.
#[derive(Clone, Copy, Debug, PartialEq, Eq)]
pub struct ArgError {
    pub msg: &'static str,
}

/// A failure to recreate states from a commit log: the log is corrupt or does
/// not belong to the states it is replayed on.
#[derive(Clone, Copy, Debug, PartialEq, Eq)]
pub struct ReplayError {
    pub msg: &'static str,
}

/// Why a partition has no tip to offer.
#[derive(Clone, Copy, Debug, PartialEq, Eq, Structural)]
pub enum TipError {
    /// Nothing is loaded.
    NotReady,
    /// Several tips exist; a merge is required.
    MergeRequired,
}

/// Why a commit or a state could not be pushed.
#[derive(Clone, Copy, Debug, PartialEq, Eq, Structural)]
pub enum PatchOp {
    /// The parent state is not known.
    NoParent,
    /// A state with the commit's state sum exists already.
    SumClash,
    /// The changes do not apply to the parent, or do not lead to the state
    /// sum that the commit names.
    PatchApply,
}

/// Why a key prefix names no state.
#[derive(Clone, Debug, PartialEq, Eq)]
pub enum MatchError {
    /// No state matches.
    NoMatch,
    /// Several states match; two of them are given.
    MultiMatch(String, String),
}

/// The compound error type.
#[derive(Clone, Debug, PartialEq, Eq)]
pub enum Error {
    /// Structure or checksum failure while reading.
    Read(ReadError),
    /// Invalid argument.
    Arg(ArgError),
    /// No element found for replacement, removal or retrieval.
    NoEltFound(&'static str),
    /// Log replay failed.
    Replay(ReplayError),
    /// No tip: not loaded, or a merge is required.
    Tip(TipError),
    /// A commit or state could not be pushed.
    Patch(PatchOp),
    /// A key prefix matched no state, or several.
    Match(MatchError),
    /// The I/O provider failed.
    Io(&'static str),
    /// Payload bytes are not what the element type asks for.
    Encoding(&'static str),
    /// Anything else.
    Other(&'static str),
}

impl ReadError {
    /// A read error at `pos`, for the bytes `offset.0..offset.1` from there.
    pub fn new(msg: &'static str, pos: usize, offset: (usize, usize)) -> (e: ReadError)
        ensures
            e == (ReadError { msg, pos, off_start: offset.0, off_end: offset.1 }),
    {
        ReadError { msg, pos, off_start: offset.0, off_end: offset.1 }
    }
}

impl Error {
    /// The "invalid argument" error with the message `msg`.
    pub open spec fn arg_spec(msg: &'static str) -> Error {
        Error::Arg(ArgError { msg })
    }

    /// A read error at `pos`, for the bytes `offset.0..offset.1` from there.
    pub fn read(msg: &'static str, pos: usize, offset: (usize, usize)) -> (e: Error)
        ensures
            e == Error::Read(ReadError { msg, pos, off_start: offset.0, off_end: offset.1 }),
    {
        let (o0, o1) = offset;
        Error::Read(ReadError { msg: msg, pos: pos, off_start: o0, off_end: o1 })
    }

    /// An "invalid argument" error.
    pub fn arg(msg: &'static str) -> (e: Error)
        ensures
            e == Error::Arg(ArgError { msg }),
    {
        Error::Arg(ArgError { msg: msg })
    }

    /// A "no element found" error.
    pub fn no_elt(msg: &'static str) -> (e: Error)
        ensures
            e == Error::NoEltFound(msg),
    {
        Error::NoEltFound(msg)
    }

    /// A "log replay" error.
    pub fn replay(msg: &'static str) -> (e: Error)
        ensures
            e == Error::Replay(ReplayError { msg }),
    {
        Error::Replay(ReplayError { msg: msg })
    }
}

/// What shows a read error together with the data that were read.
pub struct ReadErrorFormatter<'a> {
    pub err: &'a ReadError,
    pub data: &'a [u8],
}

/// The bytes of a line in hexadecimal digits, a space after each.
pub open spec fn hex_line(v: Seq<u8>) -> Seq<char>
    decreases v.len(),
{
    if v.len() == 0 {
        Seq::empty()
    } else {
        hex_line(v.drop_last()) + hex_pair(v.last()) + " "@
    }
}

/// The line that marks the bytes from `lo` up to `hi` of the eight bytes
/// above it: carets under their hexadecimal digits and, behind those, under
/// their text. Where there is nothing to mark, the line is empty.
pub open spec fn mark_text(lo: int, hi: int) -> Seq<char> {
    if 0 <= lo < hi <= 8 {
        repeated(" "@, 3 * lo) + repeated("^"@, 3 * (hi - lo) - 1) + repeated(" "@, 25 - 3 * hi)
            + repeated(" "@, lo) + repeated("^"@, hi - lo) + "\n"@
    } else {
        "\n"@
    }
}

/// The first of the bytes of the line at `line` that are at fault.
pub open spec fn mark_from(e: ReadError, line: int) -> int {
    if e.pos + e.off_start > line {
        e.pos + e.off_start - line
    } else {
        0
    }
}

/// The end of the bytes of the line at `line` that are at fault.
pub open spec fn mark_to(e: ReadError, line: int) -> int {
    if e.pos + e.off_end >= line + 8 {
        8
    } else if e.pos + e.off_end > line {
        e.pos + e.off_end - line
    } else {
        0
    }
}

/// The two lines for the eight bytes at `line`: the bytes in hexadecimal
/// digits and as text, and below them the marks of the bytes at fault.
pub open spec fn line_text(e: ReadError, data: Seq<u8>, line: int) -> Seq<char> {
    hex_line(data.subrange(line, line + 8)) + lossy(data.subrange(line, line + 8)) + "\n"@
        + mark_text(mark_from(e, line), mark_to(e, line))
}

/// The lines for the data from `line` up to `end`, eight bytes each: the
/// bytes in hexadecimal digits and as text, and below them the marks of the
/// bytes at fault. Where the data end before a line does, a note says so
/// and no more lines follow.
pub open spec fn lines_text(e: ReadError, data: Seq<u8>, line: int, end: int) -> Seq<char>
    decreases end - line + 7,
{
    if line >= end {
        Seq::empty()
    } else if line < 0 || line + 8 > data.len() {
        "insufficient data to display!\n"@
    } else {
        line_text(e, data, line) + lines_text(e, data, line + 8, end)
    }
}

/// The text that shows the read error `e` with the data `data`: a line that
/// says where the error is and what it is, and the lines of data that hold
/// the bytes at fault.
pub open spec fn rendered(e: ReadError, data: Seq<u8>) -> Seq<char> {
    "read error (pos "@ + decimal(e.pos as nat) + ", offset ("@ + decimal(e.off_start as nat)
        + ", "@ + decimal(e.off_end as nat) + ")): "@ + e.msg@ + "\n"@ + lines_text(
        e,
        data,
        e.pos + 8 * (e.off_start / 8),
        e.pos + 8 * ((e.off_end + 7) / 8),
    )
}

impl ReadError {
    /// What shows this error together with the data that were read.
    pub fn display<'a>(&'a self, data: &'a [u8]) -> (f: ReadErrorFormatter<'a>)
        ensures
            *f.err == *self,
            f.data@ == data@,
    {
        ReadErrorFormatter { err: self, data: data }
    }

    /// The text of the error: where it is, and what it is.
    pub open spec fn text(self) -> Seq<char> {
        "Position "@ + decimal(self.pos as nat) + ", offset ("@ + decimal(self.off_start as nat)
            + ", "@ + decimal(self.off_end as nat) + "): "@ + self.msg@
    }

    /// The text of the error: where it is, and what it is.
    pub fn to_text(&self) -> (s: String)
        ensures
            s@ == self.text(),
    {
        let mut s = String::from_str("Position ");
        push_decimal(&mut s, self.pos);
        s.append(", offset (");
        push_decimal(&mut s, self.off_start);
        s.append(", ");
        push_decimal(&mut s, self.off_end);
        s.append("): ");
        s.append(self.msg);
        assert(s@ =~= self.text());
        s
    }
}

fn push_hex_line(out: &mut String, v: &[u8])
    ensures
        final(out)@ == old(out)@ + hex_line(v@),
{
    let mut i: usize = 0;
    assert(v@.subrange(0, 0) =~= Seq::<u8>::empty());
    assert(out@ =~= old(out)@ + hex_line(v@.subrange(0, 0)));
    while i < v.len()
        invariant
            i <= v.len(),
            out@ == old(out)@ + hex_line(v@.subrange(0, i as int)),
        decreases v.len() - i,
    {
        push_hex(out, v[i]);
        out.append(" ");
        proof {
            let s = v@.subrange(0, i + 1);
            assert(s.drop_last() =~= v@.subrange(0, i as int));
            assert(s.last() == v@[i as int]);
            assert(out@ =~= old(out)@ + hex_line(s));
        }
        i += 1;
    }
    assert(v@.subrange(0, v.len() as int) =~= v@);
}

fn push_marks(out: &mut String, lo: usize, hi: usize)
    ensures
        final(out)@ == old(out)@ + mark_text(lo as int, hi as int),
{
    if lo < hi && hi <= 8 {
        push_repeated(out, " ", 3 * lo);
        push_repeated(out, "^", 3 * (hi - lo) - 1);
        push_repeated(out, " ", 25 - 3 * hi);
        push_repeated(out, " ", lo);
        push_repeated(out, "^", hi - lo);
    }
    out.append("\n");
    assert(out@ =~= old(out)@ + mark_text(lo as int, hi as int));
}

fn push_data_line(out: &mut String, e: &ReadError, data: &[u8], at: usize)
    requires
        at + 8 <= data.len(),
    ensures
        final(out)@ == old(out)@ + line_text(*e, data@, at as int),
{
    let v = vstd::slice::slice_subrange(data, at, at + 8);
    push_hex_line(out, v);
    let text = lossy_text(v);
    out.append(text.as_str());
    out.append("\n");
    let line = at as u128;
    let fault_from: u128 = e.pos as u128 + e.off_start as u128;
    let fault_to: u128 = e.pos as u128 + e.off_end as u128;
    let lo: usize = if fault_from > line {
        if fault_from - line > 8 {
            8
        } else {
            (fault_from - line) as usize
        }
    } else {
        0
    };
    let hi: usize = if fault_to >= line + 8 {
        8
    } else if fault_to > line {
        (fault_to - line) as usize
    } else {
        0
    };
    proof {
        let a = mark_from(*e, line as int);
        let b = mark_to(*e, line as int);
        assert(b == hi);
        assert(mark_text(a, b) == mark_text(lo as int, hi as int));
    }
    push_marks(out, lo, hi);
    assert(out@ =~= old(out)@ + line_text(*e, data@, at as int));
}

impl<'a> ReadErrorFormatter<'a> {
    /// The text that shows the error and the data: see `rendered`.
    pub fn render(&self) -> (s: String)
        ensures
            s@ == rendered(*self.err, self.data@),
    {
        let e = self.err;
        let mut s = String::from_str("read error (pos ");
        push_decimal(&mut s, e.pos);
        s.append(", offset (");
        push_decimal(&mut s, e.off_start);
        s.append(", ");
        push_decimal(&mut s, e.off_end);
        s.append(")): ");
        s.append(e.msg);
        s.append("\n");
        let from: u128 = e.pos as u128 + 8 * (e.off_start / 8) as u128;
        let end: u128 = e.pos as u128 + 8 * ((e.off_end as u128 + 7) / 8);
        let mut line: u128 = from;
        assert(s@ + lines_text(*e, self.data@, from as int, end as int) =~= rendered(
            *e,
            self.data@,
        ));
        while line < end
            invariant
                from <= line,
                *e == *self.err,
                end <= usize::MAX * 3,
                s@ + lines_text(*e, self.data@, line as int, end as int) == rendered(
                    *e,
                    self.data@,
                ),
            decreases end + 7 - line,
        {
            if line + 8 > self.data.len() as u128 {
                let ghost before = s@;
                s.append("insufficient data to display!\n");
                assert(s@ =~= before + lines_text(*e, self.data@, line as int, end as int));
                return s;
            }
            let ghost before = s@;
            push_data_line(&mut s, e, self.data, line as usize);
            proof {
                let rest = lines_text(*e, self.data@, line + 8, end as int);
                assert(s@ + rest =~= before + lines_text(
                    *e,
                    self.data@,
                    line as int,
                    end as int,
                ));
            }
            line += 8;
        }
        assert(s@ + Seq::<char>::empty() =~= s@);
        s
    }
}

impl ArgError {
    /// The text of the error.
    pub open spec fn text(self) -> Seq<char> {
        "Invalid argument: "@ + self.msg@
    }
}

impl ReplayError {
    /// The text of the error.
    pub open spec fn text(self) -> Seq<char> {
        "Failed to recreate state from log: "@ + self.msg@
    }
}

impl TipError {
    /// What the error says.
    pub open spec fn message(self) -> &'static str {
        match self {
            TipError::NotReady => "partition not ready: no tip found",
            TipError::MergeRequired => "partition not ready: merge required",
        }
    }

    /// What the error says.
    pub fn description(&self) -> (s: &'static str)
        ensures
            s == self.message(),
    {
        match self {
            TipError::NotReady => "partition not ready: no tip found",
            TipError::MergeRequired => "partition not ready: merge required",
        }
    }
}

impl PatchOp {
    /// What the error says.
    pub open spec fn message(self) -> &'static str {
        match self {
            PatchOp::NoParent => "the parent state is not known",
            PatchOp::SumClash => "a state with this sum is known already",
            PatchOp::PatchApply => "the commit does not apply",
        }
    }

    /// What the error says.
    pub fn description(&self) -> (s: &'static str)
        ensures
            s == self.message(),
    {
        match self {
            PatchOp::NoParent => "the parent state is not known",
            PatchOp::SumClash => "a state with this sum is known already",
            PatchOp::PatchApply => "the commit does not apply",
        }
    }
}

impl MatchError {
    /// What the error says.
    pub open spec fn message(self) -> &'static str {
        match self {
            MatchError::NoMatch => "no matching state",
            MatchError::MultiMatch(_, _) => "several matching states",
        }
    }

    /// What the error says.
    pub fn description(&self) -> (s: &'static str)
        ensures
            s == self.message(),
    {
        match self {
            MatchError::NoMatch => "no matching state",
            MatchError::MultiMatch(_, _) => "several matching states",
        }
    }

    /// The text of the error: for several matches, with two of them.
    pub open spec fn text(self) -> Seq<char> {
        match self {
            MatchError::NoMatch => "no matching state"@,
            MatchError::MultiMatch(a, b) => "several matching states: "@ + a@ + ", "@ + b@,
        }
    }
}

impl Error {
    /// What the error says, without the place of a read error.
    pub open spec fn message(self) -> &'static str {
        match self {
            Error::Read(e) => e.msg,
            Error::Arg(e) => e.msg,
            Error::NoEltFound(msg) => msg,
            Error::Replay(e) => e.msg,
            Error::Tip(e) => e.message(),
            Error::Patch(e) => e.message(),
            Error::Match(e) => e.message(),
            Error::Io(msg) => msg,
            Error::Encoding(msg) => msg,
            Error::Other(msg) => msg,
        }
    }

    /// What the error says, without the place of a read error.
    pub fn description(&self) -> (s: &'static str)
        ensures
            s == self.message(),
    {
        match self {
            Error::Read(e) => e.msg,
            Error::Arg(e) => e.msg,
            Error::NoEltFound(msg) => msg,
            Error::Replay(e) => e.msg,
            Error::Tip(e) => e.description(),
            Error::Patch(e) => e.description(),
            Error::Match(e) => e.description(),
            Error::Io(msg) => msg,
            Error::Encoding(msg) => msg,
            Error::Other(msg) => msg,
        }
    }

    /// The text of the error.
    pub open spec fn text(self) -> Seq<char> {
        match self {
            Error::Read(e) => e.text(),
            Error::Arg(e) => e.text(),
            Error::Replay(e) => e.text(),
            Error::Match(e) => e.text(),
            _ => self.message()@,
        }
    }

    /// The text of the error.
    pub fn to_text(&self) -> (s: String)
        ensures
            s@ == self.text(),
    {
        match self {
            Error::Read(e) => e.to_text(),
            Error::Arg(e) => {
                let mut s = String::from_str("Invalid argument: ");
                s.append(e.msg);
                s
            },
            Error::Replay(e) => {
                let mut s = String::from_str("Failed to recreate state from log: ");
                s.append(e.msg);
                s
            },
            Error::Match(MatchError::MultiMatch(a, b)) => {
                let mut s = String::from_str("several matching states: ");
                s.append(a.as_str());
                s.append(", ");
                s.append(b.as_str());
                assert(s@ =~= self.text());
                s
            },
            _ => String::from_str(self.description()),
        }
    }
}

} // verus!
