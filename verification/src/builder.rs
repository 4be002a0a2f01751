//! Building a jagged array row by row.

use vstd::prelude::*;
use vstd::std_specs::convert::FromSpecImpl;
use vstd::slice::slice_to_vec;
use crate::jagged2::Jagged2;
use crate::shape::{
    same_shape,
    lemma_flatten_rows, lemma_onsets_from_lengths, lemma_rows_push, lemma_rows_take, onsets_wf, row_end,
    rows_of,
};

verus! {

/// Builds a jagged array row by row; `Jagged2::from` (or `into`) then
/// finalizes it into a `Jagged2`.
#[derive(Debug, PartialEq, Eq, Hash)]
pub struct Jagged2Builder<T> {
    /// All items pushed so far, row after row, without gaps.
    pub(crate) storage: Vec<T>,
    /// Per row: the offset of its first item in `storage`, and its length.
    pub(crate) onsets: Vec<(usize, usize)>,
}

impl<T> View for Jagged2Builder<T> {
    type V = Seq<Seq<T>>;

    /// The rows built so far, in order.
    closed spec fn view(&self) -> Seq<Seq<T>> {
        rows_of(self.storage@, self.onsets@)
    }
}

impl<T> Jagged2Builder<T> {
    /// The builder's row table lays out its buffer.
    pub closed spec fn wf(&self) -> bool {
        onsets_wf(self.onsets@, self.storage@.len() as int)
    }

    /// The contiguous buffer that holds the items pushed so far.
    pub closed spec fn flat(&self) -> Seq<T> {
        self.storage@
    }

    /// Both builders have the same row table.
    pub closed spec fn same_table(&self, other: &Self) -> bool {
        self.onsets@ == other.onsets@
    }

    /// The buffer of a well-formed builder is its rows, one after another.
    pub proof fn lemma_flat_is_rows(&self)
        requires
            self.wf(),
        ensures
            self.flat() == self@.flatten(),
    {
        lemma_flatten_rows(self.storage@, self.onsets@);
    }

    /// What `wf`, `flat` and the view of a builder are made of.
    pub(crate) proof fn lemma_unfold(&self)
        ensures
            self.wf() == onsets_wf(self.onsets@, self.storage@.len() as int),
            self.flat() == self.storage@,
            self@ == rows_of(self.storage@, self.onsets@),
    {
    }

    /// A builder holding no rows.
    pub fn new() -> (r: Self)
        ensures
            r.wf(),
            r@ == Seq::<Seq<T>>::empty(),
            r.flat() == Seq::<T>::empty(),
    {
        Self::default()
    }

    /// A builder holding no rows, with room reserved for `row_cap` rows and
    /// `item_cap` items in all. Going past either is no error: more room is
    /// taken as needed.
    pub fn with_capacity(row_cap: usize, item_cap: usize) -> (r: Self)
        ensures
            r.wf(),
            r@ == Seq::<Seq<T>>::empty(),
            r.flat() == Seq::<T>::empty(),
    {
        Self { storage: Vec::with_capacity(item_cap), onsets: Vec::with_capacity(row_cap) }
    }

    /// The number of rows held in the builder.
    pub fn len(&self) -> (r: usize)
        ensures
            r == self@.len(),
    {
        self.onsets.len()
    }

    /// The total number of items held in the builder.
    pub fn flat_len(&self) -> (r: usize)
        requires
            self.wf(),
        ensures
            r == self@.flatten().len(),
            r == self.flat().len(),
    {
        proof {
            lemma_flatten_rows(self.storage@, self.onsets@);
        }
        self.storage.len()
    }

    /// Brings the builder to `new_len` rows: rows past `new_len` are dropped,
    /// with their items; when `new_len` is larger, empty rows are appended.
    pub fn resize(&mut self, new_len: usize)
        requires
            old(self).wf(),
        ensures
            final(self).wf(),
            final(self).flat() == old(self).flat().take(final(self).flat().len() as int),
            final(self)@ == resized(old(self)@, new_len as nat),
            final(self)@.len() == new_len,
            forall|i: int|
                0 <= i < new_len && i < old(self)@.len() ==> #[trigger] final(self)@[i] == old(self)@[i],
            forall|i: int|
                old(self)@.len() <= i < new_len ==> (#[trigger] final(self)@[i]).len() == 0,
    {
        // New rows start at the end of the buffer and hold nothing.
        let onset_padding: (usize, usize) = (self.storage.len(), 0);
        if new_len <= self.onsets.len() {
            proof {
                lemma_rows_take(self.storage@, self.onsets@, new_len as int);
            }
            self.onsets.truncate(new_len);
        } else {
            let ghost old_rows = self@;
            while self.onsets.len() < new_len
                invariant
                    self.wf(),
                    self.storage@ == old(self).storage@,
                    onset_padding.0 == self.storage@.len(),
                    onset_padding.1 == 0,
                    old_rows.len() <= self@.len() <= new_len,
                    self@ =~= old_rows + Seq::new((self@.len() - old_rows.len()) as nat, |i: int| Seq::<T>::empty()),
                decreases new_len - self@.len(),
            {
                proof {
                    lemma_rows_push(self.storage@, self.onsets@, Seq::<T>::empty());
                    assert(self.storage@ + Seq::<T>::empty() =~= self.storage@);
                }
                self.onsets.push(onset_padding);
            }
        }
        let new_size = match self.onsets.last() {
            None => 0,
            Some(last) => last.0 + last.1,
        };
        proof {
            if new_len > old(self)@.len() {
                assert(self.storage@.take(new_size as int) =~= self.storage@);
            } else if new_len > 0 {
                assert(self.onsets@.last() == old(self).onsets@[new_len - 1]);
            }
        }
        self.storage.truncate(new_size);
    }

    /// Pushes `row` as the builder's next row.
    pub fn extend(&mut self, row: Vec<T>)
        requires
            old(self).wf(),
            old(self).flat().len() + row@.len() <= usize::MAX,
        ensures
            final(self).wf(),
            final(self)@ == old(self)@.push(row@),
            final(self).flat() == old(self).flat() + row@,
    {
        proof {
            lemma_flatten_rows(self.storage@, self.onsets@);
            lemma_rows_push(self.storage@, self.onsets@, row@);
        }
        let mut row = row;
        let row_start = self.storage.len();
        self.storage.append(&mut row);
        let row_end = self.storage.len();
        self.onsets.push((row_start, row_end - row_start));
    }

    /// Pushes a copy of the items of `row` as the builder's next row.
    pub fn extend_from_slice(&mut self, row: &[T])
        where
            T: Copy,
        requires
            old(self).wf(),
            old(self).flat().len() + row@.len() <= usize::MAX,
        ensures
            final(self).wf(),
            final(self)@ == old(self)@.push(row@),
            final(self).flat() == old(self).flat() + row@,
    {
        self.extend(slice_to_vec(row))
    }
}

/// The rows after `resize(n)`: the first `n` rows when there are at least `n`;
/// otherwise all rows followed by empty ones up to `n`.
pub open spec fn resized<T>(rows: Seq<Seq<T>>, n: nat) -> Seq<Seq<T>> {
    if n <= rows.len() {
        rows.take(n as int)
    } else {
        rows + Seq::new((n - rows.len()) as nat, |i: int| Seq::<T>::empty())
    }
}

/// Resizing to `n` rows gives exactly `n` rows: the first rows as they were,
/// as many of them as fit, and then empty rows.
pub proof fn lemma_resized_rows<T>(rows: Seq<Seq<T>>, n: nat)
    ensures
        resized(rows, n).len() == n,
        forall|i: int| 0 <= i < n && i < rows.len() ==> #[trigger] resized(rows, n)[i] == rows[i],
        forall|i: int| rows.len() <= i < n ==> (#[trigger] resized(rows, n)[i]).len() == 0,
{
}

/// Resizing to `n` and then to `m <= n` is resizing to `m`; in particular,
/// resizing twice to the same length is resizing once.
pub proof fn lemma_resize_twice<T>(rows: Seq<Seq<T>>, n: nat, m: nat)
    requires
        m <= n,
    ensures
        resized(resized(rows, n), m) =~= resized(rows, m),
        resized(resized(rows, n), n) =~= resized(rows, n),
{
}

/// The rows of a builder made by `new()` and then `extend` with `rows[0]`,
/// ..., `rows[k - 1]`, in that order.
pub open spec fn built_from<T>(rows: Seq<Seq<T>>, k: nat) -> Seq<Seq<T>>
    decreases k,
{
    if k == 0 {
        Seq::empty()
    } else {
        built_from(rows, (k - 1) as nat).push(rows[k - 1])
    }
}

/// Extending a new builder with `k` rows, in order, gives exactly those `k`
/// rows; so the builder's `len` is `k`, empty rows included, and finalizing it
/// (`from`) gives what `from_iter` gives for the same rows.
pub proof fn lemma_built_from<T>(rows: Seq<Seq<T>>, k: nat)
    requires
        k <= rows.len(),
    ensures
        built_from(rows, k) =~= rows.take(k as int),
        built_from(rows, k).len() == k,
    decreases k,
{
    if k > 0 {
        lemma_built_from(rows, (k - 1) as nat);
        assert(rows.take(k as int) =~= rows.take(k - 1).push(rows[k - 1]));
    }
}

/// Two well-formed builders with the same rows hold the same buffer and the
/// same row table, and so compare equal field by field.
pub proof fn lemma_rows_determine_builder<T>(b: &Jagged2Builder<T>, c: &Jagged2Builder<T>)
    requires
        b.wf(),
        c.wf(),
        b@ == c@,
    ensures
        b.flat() == c.flat(),
        b.same_table(c),
{
    lemma_flatten_rows(b.storage@, b.onsets@);
    lemma_flatten_rows(c.storage@, c.onsets@);
    assert(b.onsets@.len() == b@.len() && c.onsets@.len() == c@.len());
    assert forall|i: int| 0 <= i < b.onsets@.len() implies (#[trigger] b.onsets@[i]).1 == c.onsets@[i].1 by {
        assert(row_end(b.onsets@[i]) <= b.storage@.len());
        assert(row_end(c.onsets@[i]) <= c.storage@.len());
        assert(b@[i] == rows_of(b.storage@, b.onsets@)[i]);
        assert(c@[i] == rows_of(c.storage@, c.onsets@)[i]);
        assert(b@[i].len() == c@[i].len());
        assert(b@[i].len() == b.onsets@[i].1);
        assert(c@[i].len() == c.onsets@[i].1);
    }
    lemma_onsets_from_lengths(b.onsets@, b.storage@.len() as int, c.onsets@, c.storage@.len() as int);
}

impl<T: Clone> Clone for Jagged2Builder<T> {
    /// A copy with the same rows, each item cloned.
    fn clone(&self) -> (r: Self)
        ensures
            r.same_table(self),
            r.flat().len() == self.flat().len(),
            forall|k: int| 0 <= k < self.flat().len() ==> cloned::<T>(self.flat()[k], #[trigger] r.flat()[k]),
            self.wf() ==> {
                &&& r.wf()
                &&& same_shape(r@, self@)
                &&& forall|i: int, j: int|
                    0 <= i < self@.len() && 0 <= j < self@[i].len() ==> cloned::<T>(
                        self@[i][j],
                        #[trigger] r@[i][j],
                    )
            },
    {
        let mut onsets: Vec<(usize, usize)> = Vec::with_capacity(self.onsets.len());
        let mut i: usize = 0;
        while i < self.onsets.len()
            invariant
                i <= self.onsets@.len(),
                onsets@ == self.onsets@.take(i as int),
            decreases self.onsets@.len() - i,
        {
            onsets.push(self.onsets[i]);
            i = i + 1;
            assert(onsets@ =~= self.onsets@.take(i as int));
        }
        assert(onsets@ =~= self.onsets@);
        let mut storage: Vec<T> = Vec::with_capacity(self.storage.len());
        let mut k: usize = 0;
        while k < self.storage.len()
            invariant
                k <= self.storage@.len(),
                storage@.len() == k,
                forall|m: int| 0 <= m < k ==> cloned::<T>(self.storage@[m], #[trigger] storage@[m]),
            decreases self.storage@.len() - k,
        {
            storage.push(self.storage[k].clone());
            k = k + 1;
        }
        let r = Jagged2Builder { storage, onsets };
        proof {
            if self.wf() {
                assert forall|i: int, j: int|
                    0 <= i < self@.len() && 0 <= j < self@[i].len() implies cloned::<T>(
                    self@[i][j],
                    #[trigger] r@[i][j],
                ) by {
                    assert(row_end(self.onsets@[i]) <= self.storage@.len());
                    assert(self@[i][j] == self.storage@[self.onsets@[i].0 + j]);
                    assert(r@[i][j] == r.storage@[self.onsets@[i].0 + j]);
                }
                assert forall|i: int| 0 <= i < r@.len() implies (#[trigger] r@[i]).len() == self@[i].len() by {
                    assert(row_end(self.onsets@[i]) <= self.storage@.len());
                }
            }
        }
        r
    }
}

impl<T> Default for Jagged2Builder<T> {
    /// A builder holding no rows.
    fn default() -> (r: Self)
        ensures
            r.wf(),
            r@ == Seq::<Seq<T>>::empty(),
            r.flat() == Seq::<T>::empty(),
    {
        Self { storage: Vec::new(), onsets: Vec::new() }
    }
}

impl<T> From<Jagged2Builder<T>> for Jagged2<T> {
    /// Finalizes the builder into a fixed-shape array with the same rows.
    fn from(builder: Jagged2Builder<T>) -> (r: Self)
        ensures
            builder.wf() ==> r.wf() && r@ == builder@,
    {
        proof {
            builder.lemma_unfold();
            Jagged2::lemma_unfold(&Jagged2::finalized(builder));
        }
        Jagged2 { storage: builder.storage, onsets: builder.onsets }
    }
}

impl<T> FromSpecImpl<Jagged2Builder<T>> for Jagged2<T> {
    open spec fn obeys_from_spec() -> bool {
        true
    }

    open spec fn from_spec(builder: Jagged2Builder<T>) -> Self {
        Jagged2::finalized(builder)
    }
}

impl<T> Jagged2<T> {
    /// The array that a builder finalizes into: the same buffer and row table.
    pub closed spec fn finalized(builder: Jagged2Builder<T>) -> Self {
        Jagged2 { storage: builder.storage, onsets: builder.onsets }
    }

    /// Finalizing a well-formed builder gives a well-formed array with the
    /// builder's rows.
    pub proof fn lemma_finalized(builder: Jagged2Builder<T>)
        requires
            builder.wf(),
        ensures
            Self::finalized(builder).wf(),
            Self::finalized(builder)@ == builder@,
    {
        builder.lemma_unfold();
        Self::lemma_unfold(&Self::finalized(builder));
    }
}

} // verus!
