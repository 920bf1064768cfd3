//! A buffered byte source over a stream held in memory, and the scanning
//! operations that take delimited records from it.

use crate::delimiter::{
    has_match, is_first_match, lemma_longest_attained, longest, valid_delimiters, views,
};
use crate::scan::{
    check_delimiters, consumed, lemma_consumed_bounds, outcome, scan_chunk, Outcome, Scan,
    ScanError,
};
use vstd::prelude::*;

verus! {

/// Number of bytes that a source made by [`ByteSource::new`] buffers at most.
pub const DEFAULT_CAPACITY: usize = 8192;

/// What a buffered source is to its callers.
#[verifier::ext_equal]
pub struct SourceView {
    /// The bytes of the stream that have not been taken yet.
    pub unread: Seq<u8>,
    /// How many of them, from the front, are in the buffer.
    pub buffered: nat,
    /// How many bytes the buffer is filled up to by a fetch.
    pub capacity: nat,
}

impl SourceView {
    /// The buffer holds no more than the stream has left.
    pub open spec fn wf(self) -> bool {
        self.buffered <= self.unread.len()
    }

    /// The buffered bytes.
    pub open spec fn chunk(self) -> Seq<u8> {
        self.unread.take(self.buffered as int)
    }

    /// The buffer holds all that the stream has left.
    pub open spec fn at_end(self) -> bool {
        self.buffered == self.unread.len()
    }

    /// The source after a peek that asks for `need` bytes. A buffer that
    /// holds that many stays as it is. One that holds fewer is filled by a
    /// single fetch, up to its capacity or to `need` if that is more, as
    /// far as the stream reaches.
    pub open spec fn after_peek(self, need: nat) -> SourceView {
        if self.buffered >= need {
            self
        } else {
            let room = if self.capacity > need {
                self.capacity
            } else {
                need
            };
            SourceView {
                buffered: if self.unread.len() < room {
                    self.unread.len()
                } else {
                    room
                },
                ..self
            }
        }
    }

    /// The source after its first `n` buffered bytes were taken.
    pub open spec fn after_advance(self, n: nat) -> SourceView {
        SourceView {
            unread: self.unread.skip(n as int),
            buffered: (self.buffered - n) as nat,
            capacity: self.capacity,
        }
    }

    /// The source as a scan for `delims` sees it: after a peek that asks
    /// for as many bytes as the longest delimiter has.
    pub open spec fn peeked(self, delims: Seq<Seq<u8>>) -> SourceView {
        self.after_peek(longest(delims))
    }

    /// Number of bytes that a scan for `delims` takes from the source;
    /// none where the set is refused.
    pub open spec fn taken(self, delims: Seq<Seq<u8>>) -> nat {
        if valid_delimiters(delims) {
            consumed(self.peeked(delims).chunk(), delims, self.peeked(delims).at_end())
        } else {
            0
        }
    }

    /// How a scan for a valid set `delims` ends.
    pub open spec fn ending(self, delims: Seq<Seq<u8>>) -> Outcome {
        outcome(self.peeked(delims).chunk(), delims)
    }

    /// The source after a scan for `delims`; as before where the set is
    /// refused.
    pub open spec fn after_scan(self, delims: Seq<Seq<u8>>) -> SourceView {
        if valid_delimiters(delims) {
            self.peeked(delims).after_advance(self.taken(delims))
        } else {
            self
        }
    }
}

/// A peek keeps the source well formed and the stream as it is. Asked for
/// at least one byte, it leaves the buffer with as many bytes as were
/// asked for, or with all that the stream has left.
pub proof fn lemma_peek(source: SourceView, need: nat)
    requires
        source.wf(),
    ensures
        source.after_peek(need).wf(),
        source.after_peek(need).unread == source.unread,
        source.after_peek(need).capacity == source.capacity,
        source.after_peek(need).buffered >= source.buffered,
        source.after_peek(need).buffered >= need || source.after_peek(need).at_end(),
{
}

/// A scan for a valid set takes a prefix of the unread bytes and leaves
/// the source well formed. It takes nothing only when nothing is left.
pub proof fn lemma_scan(source: SourceView, delims: Seq<Seq<u8>>)
    requires
        source.wf(),
        valid_delimiters(delims),
    ensures
        source.taken(delims) <= source.peeked(delims).buffered,
        source.taken(delims) <= source.unread.len(),
        source.taken(delims) == 0 <==> source.unread.len() == 0,
        source.after_scan(delims).wf(),
        source.after_scan(delims).unread == source.unread.skip(source.taken(delims) as int),
        source.after_scan(delims).capacity == source.capacity,
{
    let peeked = source.peeked(delims);
    lemma_peek(source, longest(delims));
    lemma_consumed_bounds(peeked.chunk(), delims, peeked.at_end());
    lemma_longest_attained(delims);
}

/// A scan of a stream with nothing left takes nothing and leaves the
/// source as it is.
pub proof fn lemma_scan_exhausted(source: SourceView, delims: Seq<Seq<u8>>)
    requires
        source.wf(),
        source.unread.len() == 0,
    ensures
        source.taken(delims) == 0,
        source.after_scan(delims) == source,
{
    if valid_delimiters(delims) {
        lemma_scan(source, delims);
        let after = source.after_scan(delims);
        assert(after.unread =~= source.unread);
        assert(after.buffered == source.buffered);
    }
}

/// A byte stream held in memory, read through a buffer of bounded size as
/// a buffered reader would read it.
pub struct ByteSource<'a> {
    stream: &'a [u8],
    position: usize,
    filled: usize,
    capacity: usize,
}

impl<'a> View for ByteSource<'a> {
    type V = SourceView;

    closed spec fn view(&self) -> SourceView {
        SourceView {
            unread: self.stream@.skip(self.position as int),
            buffered: (self.filled - self.position) as nat,
            capacity: self.capacity as nat,
        }
    }
}

impl<'a> ByteSource<'a> {
    #[verifier::type_invariant]
    spec fn inv(self) -> bool {
        self.position <= self.filled <= self.stream@.len()
    }

    /// A source over `stream` with a buffer of [`DEFAULT_CAPACITY`] bytes,
    /// nothing fetched yet.
    pub fn new(stream: &'a [u8]) -> (source: Self)
        ensures
            source@ == (SourceView {
                unread: stream@,
                buffered: 0,
                capacity: DEFAULT_CAPACITY as nat,
            }),
    {
        Self::with_capacity(DEFAULT_CAPACITY, stream)
    }

    /// A source over `stream` with a buffer of `capacity` bytes, nothing
    /// fetched yet.
    pub fn with_capacity(capacity: usize, stream: &'a [u8]) -> (source: Self)
        ensures
            source@ == (SourceView { unread: stream@, buffered: 0, capacity: capacity as nat }),
    {
        let source = ByteSource { stream, position: 0, filled: 0, capacity };
        assert(stream@.skip(0) =~= stream@);
        source
    }

    /// The buffered bytes, after a fetch if fewer than `need` were
    /// buffered. The result is empty only if `need` is 0 or the stream has
    /// nothing left.
    pub fn peek(&mut self, need: usize) -> (chunk: &'a [u8])
        ensures
            final(self)@ == old(self)@.after_peek(need as nat),
            final(self)@.wf(),
            chunk@ == final(self)@.chunk(),
    {
        proof {
            use_type_invariant(&*self);
        }
        if self.filled - self.position < need {
            let room = if self.capacity > need {
                self.capacity
            } else {
                need
            };
            let left = self.stream.len() - self.position;
            self.filled = self.position + (if left < room {
                left
            } else {
                room
            });
        }
        let chunk = vstd::slice::slice_subrange(self.stream, self.position, self.filled);
        assert(chunk@ =~= self@.chunk());
        chunk
    }

    /// Marks the first `n` buffered bytes as taken.
    pub fn advance(&mut self, n: usize)
        requires
            n <= old(self)@.buffered,
        ensures
            final(self)@ == old(self)@.after_advance(n as nat),
    {
        proof {
            use_type_invariant(&*self);
        }
        self.position = self.position + n;
        assert(self@.unread =~= old(self)@.unread.skip(n as int));
    }

    /// Whether the buffer holds all that the stream has left.
    pub fn at_end(&self) -> (end: bool)
        ensures
            self@.wf(),
            end == self@.at_end(),
    {
        proof {
            use_type_invariant(self);
        }
        self.filled == self.stream.len()
    }

    /// Number of bytes of the stream that have not been taken yet.
    pub fn remaining(&self) -> (left: usize)
        ensures
            left == self@.unread.len(),
    {
        proof {
            use_type_invariant(self);
        }
        self.stream.len() - self.position
    }

    /// Scans for the first of `delimiters` and appends the bytes taken to
    /// `output`.
    ///
    /// The set is checked before the source is touched: an empty set or an
    /// empty delimiter is refused, and source and `output` stay as they
    /// were. Otherwise the source is peeked for as many bytes as the
    /// longest delimiter has, the buffered bytes are scanned as
    /// [`scan_until_any`](crate::scan::scan_until_any) says, and the bytes
    /// taken are marked so. Nothing is taken only when the stream has
    /// nothing left.
    pub fn scan(&mut self, delimiters: &[&[u8]], output: &mut Vec<u8>) -> (scanned: Result<
        Scan,
        ScanError,
    >)
        ensures
            scanned is Ok <==> valid_delimiters(views(delimiters@)),
            old(self)@.wf(),
            final(self)@ == old(self)@.after_scan(views(delimiters@)),
            final(self)@.wf(),
            final(output)@ == old(output)@ + old(self)@.unread.take(
                old(self)@.taken(views(delimiters@)) as int,
            ),
            scanned matches Err(e) ==> e == ScanError::InvalidArgument && final(output)@ == old(
                output,
            )@,
            scanned matches Ok(scan) ==> {
                &&& scan.consumed == old(self)@.taken(views(delimiters@))
                &&& scan.outcome == old(self)@.ending(views(delimiters@))
                &&& scan.consumed <= old(self)@.unread.len()
                &&& (scan.consumed == 0 <==> old(self)@.unread.len() == 0)
                &&& final(self)@.unread == old(self)@.unread.skip(scan.consumed as int)
            },
            old(self)@.unread.len() == 0 ==> final(self)@ == old(self)@ && final(output)@ == old(
                output,
            )@,
            scanned matches Ok(scan) ==> match scan.outcome {
                Outcome::Found { delimiter } => {
                    &&& delimiter < delimiters@.len()
                    &&& is_first_match(
                        old(self)@.peeked(views(delimiters@)).chunk(),
                        views(delimiters@),
                        scan.consumed - views(delimiters@)[delimiter as int].len(),
                        delimiter as int,
                    )
                    &&& views(delimiters@)[delimiter as int].is_suffix_of(
                        old(self)@.unread.take(scan.consumed as int),
                    )
                },
                Outcome::ExhaustedNoMatch => !has_match(
                    old(self)@.peeked(views(delimiters@)).chunk(),
                    views(delimiters@),
                ),
            },
    {
        let ghost before = self@;
        let ghost delims = views(delimiters@);
        proof {
            use_type_invariant(&*self);
            assert(before.unread.take(0) =~= Seq::<u8>::empty());
            if before.unread.len() == 0 {
                lemma_scan_exhausted(before, delims);
            }
        }
        match check_delimiters(delimiters) {
            Ok(most) => {
                let chunk = self.peek(most);
                let scan = scan_chunk(chunk, delimiters, most, self.at_end());
                proof {
                    lemma_scan(before, delims);
                    assert(chunk@.take(scan.consumed as int) =~= before.unread.take(
                        scan.consumed as int,
                    ));
                }
                output.extend_from_slice(vstd::slice::slice_subrange(chunk, 0, scan.consumed));
                self.advance(scan.consumed);
                assert(final(output)@ =~= old(output)@ + before.unread.take(scan.consumed as int));
                Ok(scan)
            },
            Err(e) => Err(e),
        }
    }
}

} // verus!
