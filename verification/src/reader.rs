//! Reading delimited records from a source of bytes.

use crate::delimiter::{
    first_match, is_first_match, lemma_first_match_exists, lemma_first_match_in_prefix,
    lemma_first_match_some, lemma_first_match_unique, lemma_occurs_in_prefix, occurs_at,
    valid_delimiters, views,
};
use crate::scan::{Outcome, ScanError};
use crate::source::{lemma_scan, ByteSource};
use vstd::prelude::*;

verus! {

/// A reader that hands out its stream record by record, each record ending
/// in a delimiter that the caller names.
pub trait UntilReader {
    /// The bytes of the stream that have not been read yet.
    spec fn unread(&self) -> Seq<u8>;

    /// Reads up to and including the next `ending` and appends what was
    /// read to `buf`. Gives the number of bytes read.
    ///
    /// An empty `ending` is refused, with reader and `buf` untouched.
    /// Otherwise the bytes read are the next bytes of the stream, in
    /// order, and `ending` occurs in them at their end or not at all. No
    /// byte is read only when the stream has none left.
    fn read_until_bytes(&mut self, ending: &[u8], buf: &mut Vec<u8>) -> (read: Result<
        usize,
        ScanError,
    >)
        ensures
            read is Ok <==> ending@.len() > 0,
            read matches Err(e) ==> {
                &&& e == ScanError::InvalidArgument
                &&& final(self).unread() == old(self).unread()
                &&& final(buf)@ == old(buf)@
            },
            read matches Ok(n) ==> {
                &&& n <= old(self).unread().len()
                &&& (n == 0 <==> old(self).unread().len() == 0)
                &&& final(buf)@ == old(buf)@ + old(self).unread().take(n as int)
                &&& final(self).unread() == old(self).unread().skip(n as int)
                &&& forall|at: int| #[trigger]
                    occurs_at(old(self).unread().take(n as int), ending@, at) ==> at + ending@.len()
                        == n
            },
    ;

    /// Reads up to and including the next of `endings` and appends what
    /// was read to `buf`. Gives the number of bytes read.
    ///
    /// An empty set or an empty ending is refused, with reader and `buf`
    /// untouched. Otherwise the bytes read are the next bytes of the
    /// stream, in order, and if an ending occurs in them, then the first
    /// occurrence (lowest offset, then first listed) reaches to their end.
    /// No byte is read only when the stream has none left.
    fn read_until_either_bytes(&mut self, endings: &[&[u8]], buf: &mut Vec<u8>) -> (read: Result<
        usize,
        ScanError,
    >)
        ensures
            read is Ok <==> valid_delimiters(views(endings@)),
            read matches Err(e) ==> {
                &&& e == ScanError::InvalidArgument
                &&& final(self).unread() == old(self).unread()
                &&& final(buf)@ == old(buf)@
            },
            read matches Ok(n) ==> {
                &&& n <= old(self).unread().len()
                &&& (n == 0 <==> old(self).unread().len() == 0)
                &&& final(buf)@ == old(buf)@ + old(self).unread().take(n as int)
                &&& final(self).unread() == old(self).unread().skip(n as int)
                &&& forall|at: int, which: int| #[trigger]
                    is_first_match(old(self).unread().take(n as int), views(endings@), at, which)
                        ==> at + views(endings@)[which].len() == n
            },
    ;
}

impl<'a> UntilReader for ByteSource<'a> {
    open spec fn unread(&self) -> Seq<u8> {
        self@.unread
    }

    /// What is read is what [`ByteSource::scan`] takes for the set of the
    /// one `ending`.
    fn read_until_bytes(&mut self, ending: &[u8], buf: &mut Vec<u8>) -> (read: Result<
        usize,
        ScanError,
    >)
        ensures
            final(self)@ == old(self)@.after_scan(seq![ending@]),
            read matches Ok(n) ==> n == old(self)@.taken(seq![ending@]),
    {
        let set: [&[u8]; 1] = [ending];
        let one = set.as_slice();
        let ghost before = self@;
        let ghost delims = seq![ending@];
        proof {
            assert(views(one@) =~= delims);
            assert(delims[0] == ending@);
        }
        match self.read_until_either_bytes(one, buf) {
            Ok(n) => {
                proof {
                    let taken = before.unread.take(n as int);
                    assert forall|at: int| #[trigger]
                        occurs_at(taken, ending@, at) implies at + ending@.len() == n by {
                        lemma_first_match_exists(taken, delims);
                        lemma_first_match_some(taken, delims);
                        let (low, which) = first_match(taken, delims)->0;
                        assert(which == 0);
                        assert(low + ending@.len() == n);
                        if at < low {
                            assert(!occurs_at(taken, delims[0], at));
                        }
                    }
                }
                Ok(n)
            },
            Err(e) => Err(e),
        }
    }

    /// What is read is what [`ByteSource::scan`] takes.
    fn read_until_either_bytes(&mut self, endings: &[&[u8]], buf: &mut Vec<u8>) -> (read: Result<
        usize,
        ScanError,
    >)
        ensures
            final(self)@ == old(self)@.after_scan(views(endings@)),
            read matches Ok(n) ==> n == old(self)@.taken(views(endings@)),
    {
        let ghost before = self@;
        let ghost delims = views(endings@);
        match self.scan(endings, buf) {
            Ok(scan) => {
                proof {
                    let chunk = before.peeked(delims).chunk();
                    let n = scan.consumed as int;
                    lemma_scan(before, delims);
                    assert(chunk.take(n) =~= before.unread.take(n));
                    assert forall|at: int, which: int| #[trigger]
                        is_first_match(before.unread.take(n), delims, at, which) implies at
                        + delims[which].len() == n by {
                        match scan.outcome {
                            Outcome::Found { delimiter } => {
                                lemma_first_match_in_prefix(
                                    chunk,
                                    delims,
                                    n - delims[delimiter as int].len(),
                                    delimiter as int,
                                    n,
                                );
                                lemma_first_match_unique(
                                    chunk.take(n),
                                    delims,
                                    at,
                                    which,
                                    n - delims[delimiter as int].len(),
                                    delimiter as int,
                                );
                            },
                            Outcome::ExhaustedNoMatch => {
                                lemma_occurs_in_prefix(chunk, delims[which], at, n);
                                assert(occurs_at(chunk, delims[which], at));
                            },
                        }
                    }
                }
                Ok(scan.consumed)
            },
            Err(e) => Err(e),
        }
    }
}

} // verus!
