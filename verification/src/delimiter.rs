//! Byte-exact delimiter matching: what it means for a delimiter to occur in
//! a slice, which occurrence counts as the first, and the search for it.

use vstd::prelude::*;

verus! {

/// `pat` occurs in `hay` as a contiguous run that starts at offset `at`.
pub open spec fn occurs_at(hay: Seq<u8>, pat: Seq<u8>, at: int) -> bool {
    &&& 0 <= at
    &&& at + pat.len() <= hay.len()
    &&& hay.subrange(at, at + pat.len()) == pat
}

/// The delimiters of a set, each as the byte sequence it stands for.
pub open spec fn views(delimiters: Seq<&[u8]>) -> Seq<Seq<u8>> {
    Seq::new(delimiters.len(), |d: int| delimiters[d]@)
}

/// A delimiter set is usable when it is not empty and no member is empty.
pub open spec fn valid_delimiters(delims: Seq<Seq<u8>>) -> bool {
    &&& delims.len() > 0
    &&& forall|d: int| 0 <= d < delims.len() ==> (#[trigger] delims[d]).len() > 0
}

/// Some delimiter of the set occurs somewhere in `hay`.
pub open spec fn has_match(hay: Seq<u8>, delims: Seq<Seq<u8>>) -> bool {
    exists|at: int, d: int| 0 <= d < delims.len() && #[trigger] occurs_at(hay, delims[d], at)
}

/// Delimiter number `which` at offset `at` is the occurrence a scan must
/// report: no delimiter occurs at a lower offset, and of those that occur
/// at `at` it is the one listed first.
pub open spec fn is_first_match(hay: Seq<u8>, delims: Seq<Seq<u8>>, at: int, which: int) -> bool {
    &&& 0 <= which < delims.len()
    &&& occurs_at(hay, delims[which], at)
    &&& forall|lower: int, d: int|
        0 <= lower < at && 0 <= d < delims.len() ==> !(#[trigger] occurs_at(
            hay,
            delims[d],
            lower,
        ))
    &&& forall|d: int| 0 <= d < which ==> !(#[trigger] occurs_at(hay, delims[d], at))
}

/// The occurrence a scan reports, as `(offset, delimiter number)`, or
/// `None` when no delimiter occurs.
pub open spec fn first_match(hay: Seq<u8>, delims: Seq<Seq<u8>>) -> Option<(int, int)> {
    if exists|at: int, which: int| is_first_match(hay, delims, at, which) {
        let (at, which) = choose|at: int, which: int| is_first_match(hay, delims, at, which);
        Some((at, which))
    } else {
        None
    }
}

/// Length of the longest delimiter of the set, 0 for the empty set.
pub open spec fn longest(delims: Seq<Seq<u8>>) -> nat
    decreases delims.len(),
{
    if delims.len() == 0 {
        0
    } else {
        let before = longest(delims.drop_last());
        if delims.last().len() > before {
            delims.last().len()
        } else {
            before
        }
    }
}

/// Whether `pat` occurs in `hay` at offset `at`. An offset at which `pat`
/// no longer fits is simply not an occurrence.
pub fn matches_at(hay: &[u8], pat: &[u8], at: usize) -> (hit: bool)
    ensures
        hit == occurs_at(hay@, pat@, at as int),
{
    if pat.len() > hay.len() || at > hay.len() - pat.len() {
        return false;
    }
    let mut k: usize = 0;
    while k < pat.len()
        invariant
            k <= pat.len(),
            at + pat.len() <= hay.len(),
            forall|j: int| 0 <= j < k ==> hay@[at + j] == pat@[j],
        decreases pat.len() - k,
    {
        if hay[at + k] != pat[k] {
            assert(hay@.subrange(at as int, at + pat.len())[k as int] != pat@[k as int]);
            return false;
        }
        k += 1;
    }
    assert(hay@.subrange(at as int, at + pat.len()) =~= pat@);
    true
}

/// The number of the first-listed delimiter that occurs in `hay` at offset
/// `at`, if any does.
pub fn delimiter_at(hay: &[u8], delimiters: &[&[u8]], at: usize) -> (found: Option<usize>)
    ensures
        match found {
            Some(which) => {
                &&& which < delimiters@.len()
                &&& occurs_at(hay@, views(delimiters@)[which as int], at as int)
                &&& forall|d: int|
                    0 <= d < which ==> !(#[trigger] occurs_at(
                        hay@,
                        views(delimiters@)[d],
                        at as int,
                    ))
            },
            None => forall|d: int|
                0 <= d < delimiters@.len() ==> !(#[trigger] occurs_at(
                    hay@,
                    views(delimiters@)[d],
                    at as int,
                )),
        },
{
    let mut d: usize = 0;
    while d < delimiters.len()
        invariant
            d <= delimiters@.len(),
            forall|e: int|
                0 <= e < d ==> !(#[trigger] occurs_at(hay@, views(delimiters@)[e], at as int)),
        decreases delimiters.len() - d,
    {
        if matches_at(hay, delimiters[d], at) {
            return Some(d);
        }
        d += 1;
    }
    None
}

/// Searches `hay` for the first occurrence of any delimiter of the set:
/// every offset from 0 on is tried in turn, and at each offset the
/// delimiters in the order in which they are listed.
pub fn find_first(hay: &[u8], delimiters: &[&[u8]]) -> (found: Option<(usize, usize)>)
    ensures
        match found {
            Some((at, which)) => {
                &&& is_first_match(hay@, views(delimiters@), at as int, which as int)
                &&& first_match(hay@, views(delimiters@)) == Some((at as int, which as int))
            },
            None => {
                &&& !has_match(hay@, views(delimiters@))
                &&& first_match(hay@, views(delimiters@)) is None
            },
        },
{
    let ghost delims = views(delimiters@);
    let mut at: usize = 0;
    loop
        invariant
            at <= hay@.len(),
            delims == views(delimiters@),
            forall|lower: int, d: int|
                0 <= lower < at && 0 <= d < delims.len() ==> !(#[trigger] occurs_at(
                    hay@,
                    delims[d],
                    lower,
                )),
        decreases hay.len() - at,
    {
        if let Some(which) = delimiter_at(hay, delimiters, at) {
            proof {
                lemma_first_match_is(hay@, delims, at as int, which as int);
            }
            return Some((at, which));
        }
        if at == hay.len() {
            proof {
                lemma_first_match_exists(hay@, delims);
            }
            return None;
        }
        at += 1;
    }
}

/// At most one occurrence is the first: which one a scan reports is
/// settled by the bytes and the set alone.
pub proof fn lemma_first_match_unique(
    hay: Seq<u8>,
    delims: Seq<Seq<u8>>,
    at: int,
    which: int,
    other_at: int,
    other_which: int,
)
    requires
        is_first_match(hay, delims, at, which),
        is_first_match(hay, delims, other_at, other_which),
    ensures
        at == other_at,
        which == other_which,
{
}

/// An occurrence that is the first is the one `first_match` names.
pub proof fn lemma_first_match_is(hay: Seq<u8>, delims: Seq<Seq<u8>>, at: int, which: int)
    requires
        is_first_match(hay, delims, at, which),
    ensures
        first_match(hay, delims) == Some((at, which)),
{
    let (other_at, other_which) = choose|at: int, which: int|
        is_first_match(hay, delims, at, which);
    lemma_first_match_unique(hay, delims, at, which, other_at, other_which);
}

/// What `first_match` names is the first occurrence.
pub proof fn lemma_first_match_some(hay: Seq<u8>, delims: Seq<Seq<u8>>)
    requires
        first_match(hay, delims) is Some,
    ensures
        first_match(hay, delims) matches Some((at, which)) && is_first_match(
            hay,
            delims,
            at,
            which,
        ),
{
}

/// Among the delimiters up to number `d` that occur at `at`, one is listed
/// first.
proof fn lemma_first_listed(hay: Seq<u8>, delims: Seq<Seq<u8>>, at: int, d: int) -> (which: int)
    requires
        0 <= d < delims.len(),
        occurs_at(hay, delims[d], at),
    ensures
        0 <= which <= d,
        occurs_at(hay, delims[which], at),
        forall|e: int| 0 <= e < which ==> !(#[trigger] occurs_at(hay, delims[e], at)),
    decreases d,
{
    if exists|e: int| 0 <= e < d && #[trigger] occurs_at(hay, delims[e], at) {
        let e = choose|e: int| 0 <= e < d && #[trigger] occurs_at(hay, delims[e], at);
        lemma_first_listed(hay, delims, at, e)
    } else {
        d
    }
}

/// At or below an offset at which a delimiter occurs there is a lowest
/// such offset.
proof fn lemma_lowest_offset(hay: Seq<u8>, delims: Seq<Seq<u8>>, at: int, d: int) -> (low: (
    int,
    int,
))
    requires
        0 <= d < delims.len(),
        occurs_at(hay, delims[d], at),
    ensures
        0 <= low.0 <= at,
        0 <= low.1 < delims.len(),
        occurs_at(hay, delims[low.1], low.0),
        forall|lower: int, e: int|
            0 <= lower < low.0 && 0 <= e < delims.len() ==> !(#[trigger] occurs_at(
                hay,
                delims[e],
                lower,
            )),
    decreases at,
{
    if exists|lower: int, e: int|
        0 <= lower < at && 0 <= e < delims.len() && #[trigger] occurs_at(hay, delims[e], lower) {
        let (lower, e) = choose|lower: int, e: int|
            0 <= lower < at && 0 <= e < delims.len() && #[trigger] occurs_at(
                hay,
                delims[e],
                lower,
            );
        lemma_lowest_offset(hay, delims, lower, e)
    } else {
        (at, d)
    }
}

/// `first_match` finds an occurrence exactly when there is one.
pub proof fn lemma_first_match_exists(hay: Seq<u8>, delims: Seq<Seq<u8>>)
    ensures
        first_match(hay, delims) is Some <==> has_match(hay, delims),
{
    if has_match(hay, delims) {
        let (at, d) = choose|at: int, d: int|
            0 <= d < delims.len() && #[trigger] occurs_at(hay, delims[d], at);
        let low = lemma_lowest_offset(hay, delims, at, d);
        let which = lemma_first_listed(hay, delims, low.0, low.1);
        assert(is_first_match(hay, delims, low.0, which));
    }
    if first_match(hay, delims) is Some {
        lemma_first_match_some(hay, delims);
    }
}

/// A delimiter occurs in a prefix exactly where it occurs in the whole and
/// ends within the prefix.
pub proof fn lemma_occurs_in_prefix(hay: Seq<u8>, pat: Seq<u8>, at: int, n: int)
    requires
        0 <= n <= hay.len(),
    ensures
        occurs_at(hay.take(n), pat, at) <==> occurs_at(hay, pat, at) && at + pat.len() <= n,
{
    if 0 <= at && at + pat.len() <= n {
        assert(hay.take(n).subrange(at, at + pat.len()) =~= hay.subrange(at, at + pat.len()));
    }
}

/// In a prefix that reaches to the end of the first occurrence, that
/// occurrence is the first too.
pub proof fn lemma_first_match_in_prefix(
    hay: Seq<u8>,
    delims: Seq<Seq<u8>>,
    at: int,
    which: int,
    n: int,
)
    requires
        is_first_match(hay, delims, at, which),
        at + delims[which].len() <= n <= hay.len(),
    ensures
        is_first_match(hay.take(n), delims, at, which),
{
    lemma_occurs_in_prefix(hay, delims[which], at, n);
    assert forall|lower: int, d: int| 0 <= lower < at && 0 <= d < delims.len() implies !(
    #[trigger] occurs_at(hay.take(n), delims[d], lower)) by {
        lemma_occurs_in_prefix(hay, delims[d], lower, n);
    }
    assert forall|d: int| 0 <= d < which implies !(#[trigger] occurs_at(
        hay.take(n),
        delims[d],
        at,
    )) by {
        lemma_occurs_in_prefix(hay, delims[d], at, n);
    }
}

/// No delimiter is longer than `longest` says.
pub proof fn lemma_longest_bounds(delims: Seq<Seq<u8>>, d: int)
    requires
        0 <= d < delims.len(),
    ensures
        delims[d].len() <= longest(delims),
    decreases delims.len(),
{
    if d < delims.len() - 1 {
        lemma_longest_bounds(delims.drop_last(), d);
    }
}

/// Some delimiter of a non-empty set is as long as `longest` says.
pub proof fn lemma_longest_attained(delims: Seq<Seq<u8>>) -> (d: int)
    requires
        delims.len() > 0,
    ensures
        0 <= d < delims.len(),
        delims[d].len() == longest(delims),
    decreases delims.len(),
{
    if delims.len() == 1 || delims.last().len() > longest(delims.drop_last()) {
        delims.len() - 1
    } else {
        lemma_longest_attained(delims.drop_last())
    }
}

} // verus!
