//! One scan of a buffered chunk: how many of its bytes the caller takes,
//! and whether they end in a delimiter.

use crate::delimiter::{
    find_first, first_match, has_match, is_first_match, lemma_first_match_some,
    lemma_longest_attained, longest, occurs_at, valid_delimiters, views,
};
use vstd::prelude::*;

verus! {

/// Why a scan was refused.
#[derive(Clone, Copy, Debug, PartialEq, Eq, Structural)]
pub enum ScanError {
    /// The delimiter set is empty, or one of its delimiters is.
    InvalidArgument,
}

/// How a scan ended.
#[derive(Clone, Copy, Debug, PartialEq, Eq, Structural)]
pub enum Outcome {
    /// The bytes taken end in a delimiter.
    Found {
        /// Its number in the set, counted from 0.
        delimiter: usize,
    },
    /// No delimiter occurs in the chunk. Unless nothing was taken, the
    /// caller scans again to go on looking.
    ExhaustedNoMatch,
}

/// The result of a scan.
#[derive(Clone, Copy, Debug, PartialEq, Eq, Structural)]
pub struct Scan {
    /// Number of bytes taken from the front of the chunk.
    pub consumed: usize,
    /// Whether they end in a delimiter, and in which.
    pub outcome: Outcome,
}

/// How many bytes at the end of a chunk without a delimiter stay behind.
/// While more of the stream may follow, these are the bytes that could
/// still begin a delimiter that the following bytes complete: one fewer
/// than the longest delimiter is long. At the end of the stream none do.
pub open spec fn held_back(chunk_len: nat, delims: Seq<Seq<u8>>, at_end: bool) -> nat {
    if at_end || longest(delims) == 0 {
        0
    } else if chunk_len < longest(delims) {
        chunk_len
    } else {
        (longest(delims) - 1) as nat
    }
}

/// Number of bytes that a scan of `chunk` takes: through the end of the
/// first delimiter occurrence, or else all but the bytes held back.
pub open spec fn consumed(chunk: Seq<u8>, delims: Seq<Seq<u8>>, at_end: bool) -> nat {
    match first_match(chunk, delims) {
        Some((at, which)) => (at + delims[which].len()) as nat,
        None => (chunk.len() - held_back(chunk.len(), delims, at_end)) as nat,
    }
}

/// How a scan of `chunk` ends.
pub open spec fn outcome(chunk: Seq<u8>, delims: Seq<Seq<u8>>) -> Outcome {
    match first_match(chunk, delims) {
        Some((at, which)) => Outcome::Found { delimiter: which as usize },
        None => Outcome::ExhaustedNoMatch,
    }
}

/// A scan never takes more than the chunk holds. It takes nothing only
/// from an empty chunk, or from one that is shorter than the longest
/// delimiter while more of the stream may follow.
pub proof fn lemma_consumed_bounds(chunk: Seq<u8>, delims: Seq<Seq<u8>>, at_end: bool)
    requires
        valid_delimiters(delims),
    ensures
        consumed(chunk, delims, at_end) <= chunk.len(),
        consumed(chunk, delims, at_end) == 0 <==> chunk.len() == 0 || (!at_end
            && first_match(chunk, delims) is None && chunk.len() < longest(delims)),
{
    if first_match(chunk, delims) is Some {
        lemma_first_match_some(chunk, delims);
    } else {
        lemma_longest_attained(delims);
    }
}

/// Checks a delimiter set and gives the length of its longest member.
pub fn check_delimiters(delimiters: &[&[u8]]) -> (checked: Result<usize, ScanError>)
    ensures
        checked is Ok <==> valid_delimiters(views(delimiters@)),
        checked matches Ok(most) ==> most == longest(views(delimiters@)),
        checked matches Err(e) ==> e == ScanError::InvalidArgument,
{
    if delimiters.len() == 0 {
        return Err(ScanError::InvalidArgument);
    }
    let ghost delims = views(delimiters@);
    let mut most: usize = 0;
    let mut d: usize = 0;
    while d < delimiters.len()
        invariant
            d <= delimiters@.len(),
            delims == views(delimiters@),
            most == longest(delims.take(d as int)),
            forall|e: int| 0 <= e < d ==> (#[trigger] delims[e]).len() > 0,
        decreases delimiters.len() - d,
    {
        let len = delimiters[d].len();
        if len == 0 {
            assert(delims[d as int].len() == 0);
            return Err(ScanError::InvalidArgument);
        }
        assert(delims.take(d + 1).drop_last() =~= delims.take(d as int));
        if len > most {
            most = len;
        }
        d += 1;
    }
    assert(delims.take(d as int) =~= delims);
    Ok(most)
}

/// The scan proper, of a chunk for a set that [`check_delimiters`] has
/// accepted; `most` is the length that it gave.
pub(crate) fn scan_chunk(chunk: &[u8], delimiters: &[&[u8]], most: usize, at_end: bool) -> (scan:
    Scan)
    requires
        valid_delimiters(views(delimiters@)),
        most == longest(views(delimiters@)),
    ensures
        scan.consumed == consumed(chunk@, views(delimiters@), at_end),
        scan.outcome == outcome(chunk@, views(delimiters@)),
        scan.consumed <= chunk@.len(),
        match scan.outcome {
            Outcome::Found { delimiter } => {
                &&& delimiter < delimiters@.len()
                &&& is_first_match(
                    chunk@,
                    views(delimiters@),
                    scan.consumed - views(delimiters@)[delimiter as int].len(),
                    delimiter as int,
                )
                &&& views(delimiters@)[delimiter as int].is_suffix_of(
                    chunk@.take(scan.consumed as int),
                )
            },
            Outcome::ExhaustedNoMatch => {
                &&& !has_match(chunk@, views(delimiters@))
                &&& scan.consumed == chunk@.len() - held_back(
                    chunk@.len(),
                    views(delimiters@),
                    at_end,
                )
            },
        },
{
    match find_first(chunk, delimiters) {
        Some((at, which)) => {
            let len = delimiters[which].len();
            assert(views(delimiters@)[which as int] == delimiters@[which as int]@);
            assert(at + len <= chunk.len());
            assert(chunk@.take(at + len).subrange(at as int, at + len) =~= chunk@.subrange(
                at as int,
                at + len,
            ));
            Scan { consumed: at + len, outcome: Outcome::Found { delimiter: which } }
        },
        None => {
            let held = if at_end {
                0
            } else if chunk.len() < most {
                chunk.len()
            } else {
                most - 1
            };
            Scan { consumed: chunk.len() - held, outcome: Outcome::ExhaustedNoMatch }
        },
    }
}

/// Scans `chunk`, the bytes that a source has buffered, for the first
/// occurrence of any of `delimiters`, and appends the bytes taken to
/// `output`. `at_end` says that the stream holds nothing beyond `chunk`.
///
/// An empty set or an empty delimiter is refused, and `output` stays as
/// it was. Otherwise the bytes taken are a prefix of `chunk`:
/// - where a delimiter occurs, the bytes up to the end of the occurrence
///   at the lowest offset; of several delimiters that occur there, the
///   one listed first counts;
/// - where none occurs, all of `chunk` at the end of the stream, and
///   before that all but the bytes held back (see [`held_back`]).
pub fn scan_until_any(
    chunk: &[u8],
    delimiters: &[&[u8]],
    at_end: bool,
    output: &mut Vec<u8>,
) -> (scanned: Result<Scan, ScanError>)
    ensures
        scanned is Ok <==> valid_delimiters(views(delimiters@)),
        scanned matches Err(e) ==> e == ScanError::InvalidArgument && final(output)@ == old(
            output,
        )@,
        scanned matches Ok(scan) ==> {
            &&& scan.consumed == consumed(chunk@, views(delimiters@), at_end)
            &&& scan.outcome == outcome(chunk@, views(delimiters@))
            &&& scan.consumed <= chunk@.len()
            &&& final(output)@ == old(output)@ + chunk@.take(scan.consumed as int)
        },
        scanned matches Ok(scan) ==> match scan.outcome {
            Outcome::Found { delimiter } => {
                &&& delimiter < delimiters@.len()
                &&& is_first_match(
                    chunk@,
                    views(delimiters@),
                    scan.consumed - views(delimiters@)[delimiter as int].len(),
                    delimiter as int,
                )
                &&& views(delimiters@)[delimiter as int].is_suffix_of(
                    chunk@.take(scan.consumed as int),
                )
            },
            Outcome::ExhaustedNoMatch => {
                &&& !has_match(chunk@, views(delimiters@))
                &&& scan.consumed == chunk@.len() - held_back(
                    chunk@.len(),
                    views(delimiters@),
                    at_end,
                )
            },
        },
{
    match check_delimiters(delimiters) {
        Ok(most) => {
            let scan = scan_chunk(chunk, delimiters, most, at_end);
            output.extend_from_slice(vstd::slice::slice_subrange(chunk, 0, scan.consumed));
            assert(final(output)@ =~= old(output)@ + chunk@.take(scan.consumed as int));
            Ok(scan)
        },
        Err(e) => Err(e),
    }
}

/// Scans `chunk` for the first occurrence of the one `delimiter`: the scan
/// of [`scan_until_any`] with a set of one.
pub fn scan_until(chunk: &[u8], delimiter: &[u8], at_end: bool, output: &mut Vec<u8>) -> (scanned:
    Result<Scan, ScanError>)
    ensures
        scanned is Ok <==> delimiter@.len() > 0,
        scanned matches Err(e) ==> e == ScanError::InvalidArgument && final(output)@ == old(
            output,
        )@,
        scanned matches Ok(scan) ==> {
            &&& scan.consumed == consumed(chunk@, seq![delimiter@], at_end)
            &&& scan.outcome == outcome(chunk@, seq![delimiter@])
            &&& scan.consumed <= chunk@.len()
            &&& final(output)@ == old(output)@ + chunk@.take(scan.consumed as int)
        },
        scanned matches Ok(scan) ==> match scan.outcome {
            Outcome::Found { delimiter: which } => {
                &&& which == 0
                &&& occurs_at(chunk@, delimiter@, scan.consumed - delimiter@.len())
                &&& forall|lower: int|
                    0 <= lower < scan.consumed - delimiter@.len() ==> !occurs_at(
                        chunk@,
                        delimiter@,
                        lower,
                    )
                &&& delimiter@.is_suffix_of(chunk@.take(scan.consumed as int))
            },
            Outcome::ExhaustedNoMatch => {
                &&& forall|at: int| !occurs_at(chunk@, delimiter@, at)
                &&& scan.consumed == chunk@.len() - (if at_end {
                    0
                } else if chunk@.len() < delimiter@.len() {
                    chunk@.len() as int
                } else {
                    delimiter@.len() - 1
                })
            },
        },
{
    let set: [&[u8]; 1] = [delimiter];
    let one = set.as_slice();
    let scanned = scan_until_any(chunk, one, at_end, output);
    proof {
        let delims = seq![delimiter@];
        assert(views(one@) =~= delims);
        assert(delims[0] == delimiter@);
        assert(delims.drop_last() =~= Seq::<Seq<u8>>::empty());
        reveal_with_fuel(longest, 2);
        assert(longest(delims) == delimiter@.len());
    }
    scanned
}

} // verus!
