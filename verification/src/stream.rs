//! Row-by-row streaming iteration over a `Jagged2`, driven by a
//! `streaming_iterator::Convert` over the row numbers.

use vstd::prelude::*;
use std::ops::Range;
use streaming_iterator::Convert;
use crate::jagged2::Jagged2;

verus! {

/// `streaming_iterator::Convert`: a streaming iterator over a plain iterator,
/// holding the iterator and its current item. Opaque here; what the stream
/// needs of it is named by `convert_item` and `convert_rest`.
#[verifier::external_type_specification]
#[verifier::external_body]
#[verifier::reject_recursive_types(I)]
pub struct ExConvert<I: Iterator>(Convert<I>);

/// The item that a `Convert` over a range currently holds (`None` before the
/// first advance and once the range is used up).
pub uninterp spec fn convert_item(c: Convert<Range<usize>>) -> Option<usize>;

/// The numbers that the range inside a `Convert` has yet to yield, in order.
pub uninterp spec fn convert_rest(c: Convert<Range<usize>>) -> Seq<usize>;

/// Calls `streaming_iterator::convert` on `0..n`. Its source builds the
/// `Convert` with the range as given and no current item.
#[verifier::external_body]
fn convert_rows(n: usize) -> (c: Convert<Range<usize>>)
    ensures
        convert_item(c) is None,
        convert_rest(c) == Seq::new(n as nat, |i: int| i as usize),
{
    streaming_iterator::convert(0..n)
}

/// Calls `StreamingIterator::advance` on a `Convert`. Its source sets the
/// current item to the range's `next()`: the range's first number, which it
/// gives up, or `None` once the range is empty.
#[verifier::external_body]
fn convert_advance(c: &mut Convert<Range<usize>>)
    ensures
        convert_rest(*old(c)).len() == 0 ==> {
            &&& convert_item(*final(c)) is None
            &&& convert_rest(*final(c)) == convert_rest(*old(c))
        },
        convert_rest(*old(c)).len() > 0 ==> {
            &&& convert_item(*final(c)) == Some(convert_rest(*old(c))[0])
            &&& convert_rest(*final(c)) == convert_rest(*old(c)).drop_first()
        },
{
    streaming_iterator::StreamingIterator::advance(c)
}

/// Calls `StreamingIterator::get` on a `Convert`; its source hands out the
/// current item.
#[verifier::external_body]
fn convert_get(c: &Convert<Range<usize>>) -> (r: Option<usize>)
    ensures
        r == convert_item(*c),
{
    streaming_iterator::StreamingIterator::get(c).copied()
}

/// Calls `StreamingIterator::size_hint` on a `Convert`; its source returns the
/// range's `size_hint`, which std documents as exact for a range of `usize`.
#[verifier::external_body]
fn convert_size_hint(c: &Convert<Range<usize>>) -> (r: (usize, Option<usize>))
    ensures
        r.0 == convert_rest(*c).len(),
        r.1 == Some(convert_rest(*c).len() as usize),
{
    streaming_iterator::StreamingIterator::size_hint(c)
}

/// Calls `StreamingIterator::count` on a `Convert`; its source returns the
/// range's `count`: how many numbers it has yet to yield.
#[verifier::external_body]
fn convert_count(c: Convert<Range<usize>>) -> (r: usize)
    ensures
        r == convert_rest(c).len(),
{
    streaming_iterator::StreamingIterator::count(c)
}

/// Calls `StreamingIterator::nth` on a `Convert`. Its source (the trait's
/// default) advances `n` times, giving up with `None` as soon as there is no
/// current item, then advances once more and hands out the current item.
#[verifier::external_body]
fn convert_nth(c: &mut Convert<Range<usize>>, n: usize) -> (r: Option<usize>)
    ensures
        n < convert_rest(*old(c)).len() ==> {
            &&& r == Some(convert_rest(*old(c))[n as int])
            &&& convert_item(*final(c)) == r
            &&& convert_rest(*final(c)) == convert_rest(*old(c)).skip(n + 1)
        },
        n >= convert_rest(*old(c)).len() ==> {
            &&& r is None
            &&& convert_item(*final(c)) is None
            &&& convert_rest(*final(c)).len() == 0
        },
{
    streaming_iterator::StreamingIterator::nth(c, n).copied()
}

/// Where a stream over `n` rows stands after `k` calls of `advance` from its
/// start: the row it is on, and how many rows it has yet to reach.
pub open spec fn position_after(n: nat, k: nat) -> (Option<usize>, nat) {
    if k == 0 {
        (None, n)
    } else if k <= n {
        (Some((k - 1) as usize), (n - k) as nat)
    } else {
        (None, 0)
    }
}

/// One `advance` of a stream over `n` rows, from position `pos` (current row,
/// rows yet to reach), as `Stream::advance` states it.
pub open spec fn advanced(n: nat, pos: (Option<usize>, nat)) -> (Option<usize>, nat) {
    if pos.1 > 0 {
        (Some((n - pos.1) as usize), (pos.1 - 1) as nat)
    } else {
        (None, 0)
    }
}

/// A stream starts before row 0 with all `n` rows ahead (`Jagged2::stream`),
/// and each `advance` takes it from `position_after(n, k)` to
/// `position_after(n, k + 1)`. So after `k + 1` advances `get` gives row `k`
/// while `k < n` and `None` after the last row: the rows come in order, each
/// once; and `count` after `k` advances is `n - min(k, n)`.
pub proof fn lemma_stream_visits_rows_in_order(n: nat, k: nat)
    requires
        n <= usize::MAX,
    ensures
        position_after(n, 0) == (None::<usize>, n),
        advanced(n, position_after(n, k)) == position_after(n, k + 1),
        k < n ==> position_after(n, k + 1).0 == Some(k as usize),
        k >= n ==> position_after(n, k + 1).0 is None,
        position_after(n, k).1 == (if k <= n { n - k } else { 0 }),
{
}

/// Streaming iterator over the rows of a `Jagged2`: `advance` moves to the next
/// row and `get` hands it out, borrowed from the array.
pub struct Stream<'a, T: 'a> {
    /// The array whose rows are streamed.
    array: &'a Jagged2<T>,
    /// Yields the row numbers, in order; holds the current one.
    onset_iter: Convert<Range<usize>>,
}

impl<'a, T: 'a> Stream<'a, T> {
    /// The array whose rows are streamed.
    pub closed spec fn array(&self) -> Jagged2<T> {
        *self.array
    }

    /// The row that the stream is on: `None` before the first `advance` and
    /// after the last row.
    pub closed spec fn current(&self) -> Option<usize> {
        convert_item(self.onset_iter)
    }

    /// How many rows the stream has yet to reach.
    pub closed spec fn remaining(&self) -> nat {
        convert_rest(self.onset_iter).len()
    }

    /// The stream moves over its array's rows in order: the rows it has yet to
    /// reach are the last `remaining()` ones, and it is on a row of the array
    /// whenever it is on one.
    pub closed spec fn wf(&self) -> bool {
        let n = self.array@.len();
        let rest = convert_rest(self.onset_iter);
        &&& self.array.wf()
        &&& n <= usize::MAX
        &&& rest.len() <= n
        &&& rest =~= Seq::new(rest.len(), |j: int| (n - rest.len() + j) as usize)
        &&& self.current() matches Some(i) ==> i < n
    }

    /// The stream over the rows of `array`, positioned before the first row.
    pub(crate) fn new(array: &'a Jagged2<T>) -> (r: Self)
        requires
            array.wf(),
        ensures
            r.wf(),
            r.array() == *array,
            r.current() is None,
            r.remaining() == array@.len(),
    {
        let r = Stream { array, onset_iter: convert_rows(array.len()) };
        assert(convert_rest(r.onset_iter) =~= Seq::new(
            array@.len(),
            |j: int| (array@.len() - array@.len() + j) as usize,
        ));
        r
    }

    /// Moves to the next row; past the last row there is no current row.
    pub fn advance(&mut self)
        requires
            old(self).wf(),
        ensures
            final(self).wf(),
            final(self).array() == old(self).array(),
            old(self).remaining() > 0 ==> {
                &&& final(self).current() == Some(
                    (old(self).array()@.len() - old(self).remaining()) as usize,
                )
                &&& final(self).remaining() == old(self).remaining() - 1
            },
            old(self).remaining() == 0 ==> final(self).current() is None && final(self).remaining()
                == 0,
            (final(self).current(), final(self).remaining()) == advanced(
                old(self).array()@.len(),
                (old(self).current(), old(self).remaining()),
            ),
    {
        convert_advance(&mut self.onset_iter);
        proof {
            let n = self.array@.len();
            let rest = convert_rest(self.onset_iter);
            let old_rest = convert_rest(old(self).onset_iter);
            if old_rest.len() > 0 {
                assert(old_rest[0] == (n - old_rest.len()) as usize);
                assert(rest =~= Seq::new(rest.len(), |j: int| (n - rest.len() + j) as usize)) by {
                    assert forall|j: int| 0 <= j < rest.len() implies rest[j] == (n - rest.len() + j) as usize by {
                        assert(rest[j] == old_rest[j + 1]);
                    }
                }
            }
        }
    }

    /// The current row, borrowed from the array; `None` when the stream is not
    /// on a row.
    pub fn get(&self) -> (r: Option<&[T]>)
        requires
            self.wf(),
        ensures
            r is Some <==> self.current() is Some,
            r is Some ==> r.unwrap()@ == self.array()@[self.current().unwrap() as int],
    {
        match convert_get(&self.onset_iter) {
            None => None,
            Some(row) => self.array.get_row(row),
        }
    }

    /// Bounds on the number of rows yet to come; both are exact.
    pub fn size_hint(&self) -> (r: (usize, Option<usize>))
        ensures
            r.0 == self.remaining(),
            r.1 == Some(self.remaining() as usize),
    {
        convert_size_hint(&self.onset_iter)
    }

    /// Consumes the stream and returns the number of rows yet to come.
    pub fn count(self) -> (r: usize)
        ensures
            r == self.remaining(),
    {
        convert_count(self.onset_iter)
    }

    /// Skips `n` rows and moves to the one after them, which it hands out;
    /// `None`, with no rows left, when there are not that many.
    pub fn nth(&mut self, n: usize) -> (r: Option<&'a [T]>)
        requires
            old(self).wf(),
        ensures
            final(self).wf(),
            final(self).array() == old(self).array(),
            n < old(self).remaining() ==> {
                let row = old(self).array()@.len() - old(self).remaining() + n;
                &&& r is Some
                &&& r.unwrap()@ == old(self).array()@[row]
                &&& final(self).current() == Some(row as usize)
                &&& final(self).remaining() == old(self).remaining() - n - 1
            },
            n >= old(self).remaining() ==> {
                &&& r is None
                &&& final(self).current() is None
                &&& final(self).remaining() == 0
            },
    {
        let row = convert_nth(&mut self.onset_iter, n);
        proof {
            let len = self.array@.len();
            let rest = convert_rest(self.onset_iter);
            let old_rest = convert_rest(old(self).onset_iter);
            if n < old_rest.len() {
                assert(old_rest[n as int] == (len - old_rest.len() + n) as usize);
                assert(rest =~= Seq::new(rest.len(), |j: int| (len - rest.len() + j) as usize)) by {
                    assert forall|j: int| 0 <= j < rest.len() implies rest[j] == (len - rest.len() + j) as usize by {
                        assert(rest[j] == old_rest[j + n + 1]);
                    }
                }
            } else {
                assert(rest =~= Seq::<usize>::empty());
            }
        }
        match row {
            None => None,
            Some(i) => self.array.get_row(i),
        }
    }
}

} // verus!
