//! What holds of scans taken together: over any series of scans no byte of
//! the stream is lost or invented, a stream that has ended stays ended,
//! and bytes that might begin a delimiter are never given up too early.

use crate::delimiter::{
    first_match, is_first_match, lemma_first_match_exists, lemma_first_match_some,
    lemma_longest_bounds, lemma_occurs_in_prefix, longest, occurs_at, valid_delimiters,
};
use crate::scan::Outcome;
use crate::source::{lemma_peek, lemma_scan, lemma_scan_exhausted, SourceView};
use vstd::prelude::*;

verus! {

/// The bytes that a series of scans appends to its outputs, one after the
/// other. Each member of `calls` is the delimiter set of one scan.
pub open spec fn emitted(source: SourceView, calls: Seq<Seq<Seq<u8>>>) -> Seq<u8>
    decreases calls.len(),
{
    if calls.len() == 0 {
        Seq::empty()
    } else {
        source.unread.take(source.taken(calls[0]) as int) + emitted(
            source.after_scan(calls[0]),
            calls.skip(1),
        )
    }
}

/// The source after a series of scans.
pub open spec fn after_calls(source: SourceView, calls: Seq<Seq<Seq<u8>>>) -> SourceView
    decreases calls.len(),
{
    if calls.len() == 0 {
        source
    } else {
        after_calls(source.after_scan(calls[0]), calls.skip(1))
    }
}

/// No data is lost: whatever delimiters a series of scans asks for, the
/// bytes appended so far, followed by the bytes still unread, are the
/// stream as it was before the first scan. Once nothing is unread, the
/// bytes appended are the whole stream.
pub proof fn lemma_no_data_loss(source: SourceView, calls: Seq<Seq<Seq<u8>>>)
    requires
        source.wf(),
    ensures
        after_calls(source, calls).wf(),
        emitted(source, calls) + after_calls(source, calls).unread == source.unread,
        after_calls(source, calls).unread.len() == 0 ==> emitted(source, calls) == source.unread,
    decreases calls.len(),
{
    if calls.len() > 0 {
        let taken = source.taken(calls[0]) as int;
        let next = source.after_scan(calls[0]);
        if valid_delimiters(calls[0]) {
            lemma_scan(source, calls[0]);
        }
        assert(next.unread =~= source.unread.skip(taken));
        lemma_no_data_loss(next, calls.skip(1));
        assert(source.unread.take(taken) + (emitted(next, calls.skip(1)) + after_calls(
            next,
            calls.skip(1),
        ).unread) =~= source.unread);
        assert(emitted(source, calls) + after_calls(source, calls).unread =~= source.unread.take(
            taken,
        ) + (emitted(next, calls.skip(1)) + after_calls(next, calls.skip(1)).unread));
    }
    assert(emitted(source, calls) + after_calls(source, calls).unread =~= source.unread);
    if after_calls(source, calls).unread.len() == 0 {
        assert(emitted(source, calls) =~= emitted(source, calls) + after_calls(
            source,
            calls,
        ).unread);
    }
}

/// Every accepted scan of a stream that has bytes left takes at least one,
/// so a series of as many accepted scans as the stream has bytes reaches
/// its end, and has then appended all of it.
pub proof fn lemma_scans_reach_the_end(source: SourceView, calls: Seq<Seq<Seq<u8>>>)
    requires
        source.wf(),
        forall|i: int| 0 <= i < calls.len() ==> valid_delimiters(#[trigger] calls[i]),
        calls.len() >= source.unread.len(),
    ensures
        after_calls(source, calls).unread.len() == 0,
        emitted(source, calls) == source.unread,
    decreases calls.len(),
{
    if calls.len() > 0 {
        lemma_scan(source, calls[0]);
        let next = source.after_scan(calls[0]);
        assert forall|i: int| 0 <= i < calls.skip(1).len() implies valid_delimiters(
            #[trigger] calls.skip(1)[i],
        ) by {
            assert(calls.skip(1)[i] == calls[i + 1]);
        }
        lemma_scans_reach_the_end(next, calls.skip(1));
    }
    lemma_no_data_loss(source, calls);
}

/// Exhaustion is idempotent: a scan of a stream with nothing left takes
/// nothing and leaves the source as it is, and so does every scan after it.
pub proof fn lemma_exhausted_stays_exhausted(source: SourceView, calls: Seq<Seq<Seq<u8>>>)
    requires
        source.wf(),
        source.unread.len() == 0,
    ensures
        forall|delims: Seq<Seq<u8>>| #[trigger] source.taken(delims) == 0,
        forall|delims: Seq<Seq<u8>>| #[trigger] source.after_scan(delims) == source,
        emitted(source, calls) == Seq::<u8>::empty(),
        after_calls(source, calls) == source,
    decreases calls.len(),
{
    assert forall|delims: Seq<Seq<u8>>|
        #[trigger] source.taken(delims) == 0 && #[trigger] source.after_scan(delims)
            == source by {
        lemma_scan_exhausted(source, delims);
    }
    if calls.len() > 0 {
        lemma_scan_exhausted(source, calls[0]);
        lemma_exhausted_stays_exhausted(source, calls.skip(1));
        assert(source.unread.take(0) =~= Seq::<u8>::empty());
        assert(emitted(source, calls) =~= Seq::<u8>::empty());
    }
}

/// Nothing that could belong to a delimiter is given up: when a scan finds
/// no delimiter in the buffer, no delimiter occurrence of the whole stream
/// begins in the bytes that it takes. An occurrence that straddles the end
/// of the buffer begins in the bytes held back, where the next scan finds
/// it.
pub proof fn lemma_no_match_takes_no_delimiter(source: SourceView, delims: Seq<Seq<u8>>)
    requires
        source.wf(),
        valid_delimiters(delims),
        source.ending(delims) == Outcome::ExhaustedNoMatch,
    ensures
        forall|at: int, d: int|
            0 <= d < delims.len() && #[trigger] occurs_at(source.unread, delims[d], at) ==> at
                >= source.taken(delims),
{
    let peeked = source.peeked(delims);
    let chunk = peeked.chunk();
    lemma_peek(source, longest(delims));
    lemma_first_match_exists(chunk, delims);
    assert forall|at: int, d: int|
        0 <= d < delims.len() && #[trigger] occurs_at(source.unread, delims[d], at) implies at
        >= source.taken(delims) by {
        if at < source.taken(delims) {
            lemma_longest_bounds(delims, d);
            lemma_occurs_in_prefix(source.unread, delims[d], at, peeked.buffered as int);
            assert(occurs_at(chunk, delims[d], at));
        }
    }
}

/// With a single delimiter, what a scan finds is the first occurrence in
/// the whole stream, not only in the buffer.
pub proof fn lemma_found_is_first_in_stream(source: SourceView, delimiter: Seq<u8>)
    requires
        source.wf(),
        delimiter.len() > 0,
        source.ending(seq![delimiter]) == (Outcome::Found { delimiter: 0 }),
    ensures
        is_first_match(
            source.unread,
            seq![delimiter],
            source.taken(seq![delimiter]) - delimiter.len(),
            0,
        ),
{
    let delims = seq![delimiter];
    let peeked = source.peeked(delims);
    let chunk = peeked.chunk();
    lemma_peek(source, longest(delims));
    lemma_first_match_some(chunk, delims);
    let (found, which) = first_match(chunk, delims)->0;
    assert(which == 0);
    assert(delims[0] == delimiter);
    lemma_occurs_in_prefix(source.unread, delimiter, found, peeked.buffered as int);
    assert forall|lower: int, d: int| 0 <= lower < found && 0 <= d < delims.len() implies !(
    #[trigger] occurs_at(source.unread, delims[d], lower)) by {
        lemma_occurs_in_prefix(source.unread, delims[d], lower, peeked.buffered as int);
        assert(!occurs_at(chunk, delims[d], lower));
    }
}

} // verus!
