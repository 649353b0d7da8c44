//! What a partition asks of the provider of its files when it writes, and
//! what it makes of the answers.

use vstd::prelude::*;
use crate::error::Error;

verus! {

/// What the provider of the files is asked to do with data.
pub enum Asked {
    /// To make the snapshot with this number.
    Snapshot(usize),
    /// To make the log with this number for the snapshot with that number:
    /// the number of the snapshot comes first.
    Log(usize, usize),
    /// To append to the log with this number of the snapshot with that
    /// number: the number of the snapshot comes first.
    Append(usize, usize),
}

/// One call of the provider of the files: what it was asked, the data that
/// it was handed, and what it answered.
pub struct Call {
    pub asked: Asked,
    pub data: Seq<u8>,
    pub answer: Result<bool, Error>,
}

/// The largest number at which the search for a free number goes on.
pub open spec fn search_limit() -> int {
    1_000_000
}

/// What is asked at the number `n` in a search: a snapshot, or a log of the
/// snapshot `of`.
pub open spec fn asked_at(of: Option<usize>, n: usize) -> Asked {
    match of {
        None => Asked::Snapshot(n),
        Some(ss) => Asked::Log(ss, n),
    }
}

/// Whether `calls` are a search for a free number from `first` on: the
/// provider is asked to make the file with the number `first` of the data,
/// then the next, and so on, as long as it answers that a file with the
/// number is there and the number is not above the limit.
pub open spec fn is_search(calls: Seq<Call>, of: Option<usize>, first: int, data: Seq<u8>) -> bool {
    &&& calls.len() >= 1
    &&& first + calls.len() - 1 <= usize::MAX
    &&& forall|i: int|
        0 <= i < calls.len() ==> (#[trigger] calls[i]).asked == asked_at(of, (first + i) as usize)
            && calls[i].data == data
    &&& forall|i: int|
        0 <= i < calls.len() - 1 ==> (#[trigger] calls[i]).answer == Ok::<bool, Error>(false)
            && first + i <= search_limit()
    &&& calls.last().answer == Ok::<bool, Error>(false) ==> first + calls.len() - 1
        > search_limit()
}

/// What a search finds: the number of the file that was made, the error of
/// the provider, or the error `high` where the search went above the
/// limit.
pub open spec fn found(calls: Seq<Call>, first: int, high: Error) -> Result<usize, Error> {
    match calls.last().answer {
        Ok(true) => Ok((first + calls.len() - 1) as usize),
        Ok(false) => Err(high),
        Err(e) => Err(e),
    }
}

} // verus!
