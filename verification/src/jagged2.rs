//! The finished, fixed-shape jagged array.

use vstd::prelude::*;
use vstd::std_specs::cmp::{PartialEqSpec, PartialEqSpecImpl};
use std::hash::{Hash, Hasher};
use std::ops::Index;
use vstd::slice::slice_subrange;
use crate::builder::Jagged2Builder;
use crate::stream::Stream;
use crate::shape::{
    lemma_flatten_prefix, lemma_flatten_rows, lemma_flatten_take_len, lemma_offset_in_row,
    lemma_onsets_from_lengths, lemma_rows_replace, lemma_rows_update, lemma_same_layout_same_shape,
    onsets_wf, row_end, rows_of, same_shape,
};

verus! {

/// Two-dimensional jagged array: each row is a slice of its own length, and all
/// items lie in one contiguous buffer, row after row.
///
/// No dimension of the array can change after creation; items can be modified.
/// Arrays are made with `Jagged2Builder`, or from a vector of rows with
/// `Jagged2::from_iter`.
#[derive(Debug)]
pub struct Jagged2<T> {
    /// All items, row after row, without gaps.
    pub(crate) storage: Vec<T>,
    /// Per row: the offset of its first item in `storage`, and its length.
    pub(crate) onsets: Vec<(usize, usize)>,
}

impl<T> View for Jagged2<T> {
    type V = Seq<Seq<T>>;

    /// The rows of the array, in order.
    closed spec fn view(&self) -> Seq<Seq<T>> {
        rows_of(self.storage@, self.onsets@)
    }
}

/// `index` names an item of `rows`: `[row, column]`.
pub open spec fn index_in<T>(rows: Seq<Seq<T>>, index: [usize; 2]) -> bool {
    &&& index[0] < rows.len()
    &&& index[1] < rows[index[0] as int].len()
}

impl<T> Jagged2<T> {
    /// The array's row table lays out its buffer.
    pub closed spec fn wf(&self) -> bool {
        onsets_wf(self.onsets@, self.storage@.len() as int)
    }

    /// The contiguous buffer that holds the items.
    pub closed spec fn flat(&self) -> Seq<T> {
        self.storage@
    }

    /// What `wf`, `flat` and the view of an array are made of.
    pub(crate) proof fn lemma_unfold(&self)
        ensures
            self.wf() == onsets_wf(self.onsets@, self.storage@.len() as int),
            self.flat() == self.storage@,
            self@ == rows_of(self.storage@, self.onsets@),
    {
    }

    /// Index into the jagged array, given in `[row, column]` form.
    /// `None` when the row or the column is out of range.
    pub fn get(&self, index: [usize; 2]) -> (r: Option<&T>)
        requires
            self.wf(),
        ensures
            r == (if index_in(self@, index) {
                Some(&self@[index[0] as int][index[1] as int])
            } else {
                None
            }),
    {
        match self.get_row(index[0]) {
            None => None,
            Some(view) => view.get(index[1]),
        }
    }

    /// Mutable access to an item, given in `[row, column]` form.
    /// `None`, and the array unchanged, when the row or the column is out of range.
    pub fn get_mut(&mut self, index: [usize; 2]) -> (r: Option<&mut T>)
        requires
            old(self).wf(),
        ensures
            r is Some <==> index_in(old(self)@, index),
            r is Some ==> {
                &&& *r.unwrap() == old(self)@[index[0] as int][index[1] as int]
                &&& final(self).wf()
                &&& final(self)@ == old(self)@.update(
                    index[0] as int,
                    old(self)@[index[0] as int].update(index[1] as int, *final(r.unwrap())),
                )
            },
            r is None ==> *final(self) == *old(self),
    {
        let row = index[0];
        let col = index[1];
        if row < self.onsets.len() {
            let (start, len) = self.onsets[row];
            if col < len {
                proof {
                    assert(row_end(self.onsets@[row as int]) <= self.storage@.len());
                    assert(self.storage@.len() == self.storage.len());
                }
                let item = &mut self.storage[start + col];
                proof {
                    lemma_rows_update(
                        old(self).storage@,
                        old(self).onsets@,
                        row as int,
                        col as int,
                        *final(item),
                    );
                }
                return Some(item);
            }
        }
        None
    }

    /// The given row, as a contiguous slice. `None` when the row is out of range.
    pub fn get_row(&self, row: usize) -> (r: Option<&[T]>)
        requires
            self.wf(),
        ensures
            r is Some <==> row < self@.len(),
            r is Some ==> r.unwrap()@ == self@[row as int],
    {
        if row < self.onsets.len() {
            let (start, len) = self.onsets[row];
            proof {
                assert(row_end(self.onsets@[row as int]) <= self.storage@.len());
                assert(self.storage@.len() == self.storage.len());
            }
            Some(slice_subrange(self.storage.as_slice(), start, start + len))
        } else {
            None
        }
    }

    /// The given row, as a contiguous mutable slice. `None`, and the array
    /// unchanged, when the row is out of range.
    ///
    /// Writes through the slice land in that row of the buffer; the rows'
    /// lengths stay as they were.
    #[verifier::spinoff_prover]
    pub fn get_row_mut(&mut self, row: usize) -> (r: Option<&mut [T]>)
        requires
            old(self).wf(),
        ensures
            r is Some <==> row < old(self)@.len(),
            r is None ==> *final(self) == *old(self),
            r is Some ==> {
                let s = r.unwrap();
                let lo = old(self)@.take(row as int).flatten().len() as int;
                &&& s@ == old(self)@[row as int]
                &&& final(self).flat() == old(self).flat().take(lo) + final(s)@ + old(self).flat().skip(lo + s@.len())
                &&& final(s)@.len() == s@.len() ==> final(self).wf() && final(self)@ == old(self)@.update(row as int, final(s)@)
            },
    {
        if row < self.onsets.len() {
            let (start, len) = self.onsets[row];
            proof {
                assert(row_end(self.onsets@[row as int]) <= self.storage@.len());
                assert(self.storage@.len() == self.storage.len());
                lemma_flatten_prefix(self.storage@, self.onsets@, row as int);
            }
            let all = self.storage.as_mut_slice();
            let (_before, rest) = all.split_at_mut(start);
            let (view, _after) = rest.split_at_mut(len);
            proof {
                let total = old(self).storage@.len() as int;
                assert(old(self)@.take(row as int).flatten().len() == start);
                assert(old(self).storage@.skip(start + len) =~= old(self).storage@.subrange(start + len, total));
                lemma_rows_replace(old(self).storage@, old(self).onsets@, row as int, final(view)@);
            }
            Some(view)
        } else {
            None
        }
    }

    /// The whole buffer: all rows, one after another.
    pub fn as_flat_slice(&self) -> (r: &[T])
        requires
            self.wf(),
        ensures
            r@ == self@.flatten(),
    {
        proof {
            lemma_flatten_rows(self.storage@, self.onsets@);
        }
        self.storage.as_slice()
    }

    /// The whole buffer as a mutable slice: all rows, one after another.
    ///
    /// Writes through the slice land in the rows; the rows' lengths stay as they were.
    pub fn as_flat_slice_mut(&mut self) -> (r: &mut [T])
        requires
            old(self).wf(),
        ensures
            r@ == old(self)@.flatten(),
            final(self).flat() == final(r)@,
            final(r)@.len() == r@.len() ==> {
                &&& final(self).wf()
                &&& same_shape(final(self)@, old(self)@)
                &&& final(self)@.flatten() == final(r)@
            },
    {
        proof {
            lemma_flatten_rows(self.storage@, self.onsets@);
            lemma_same_layout_same_shape(self.storage@, final(self).storage@, self.onsets@);
        }
        self.storage.as_mut_slice()
    }

    /// The total number of items held in the array.
    pub fn flat_len(&self) -> (r: usize)
        requires
            self.wf(),
        ensures
            r == self@.flatten().len(),
            r == self.flat().len(),
    {
        proof {
            lemma_flatten_rows(self.storage@, self.onsets@);
        }
        self.storage.len()
    }

    /// The number of rows held in the array.
    pub fn len(&self) -> (r: usize)
        ensures
            r == self@.len(),
    {
        self.onsets.len()
    }

    /// Whether the array holds no rows: `len() == 0`.
    pub fn is_empty(&self) -> (r: bool)
        ensures
            r == (self@.len() == 0),
    {
        self.onsets.is_empty()
    }

    /// Builds an array whose rows are the given vectors, in order.
    pub fn from_iter(rows: Vec<Vec<T>>) -> (r: Self)
        requires
            rows@.map_values(|v: Vec<T>| v@).flatten().len() <= usize::MAX,
        ensures
            r.wf(),
            r@ == rows@.map_values(|v: Vec<T>| v@),
    {
        let ghost want = rows@.map_values(|v: Vec<T>| v@);
        // Size the storage for all items before anything is moved.
        let row_estimate = rows.len();
        let mut item_estimate: usize = 0;
        let mut i: usize = 0;
        while i < rows.len()
            invariant
                i <= rows@.len(),
                want == rows@.map_values(|v: Vec<T>| v@),
                want.flatten().len() <= usize::MAX,
                item_estimate == want.take(i as int).flatten().len(),
            decreases rows@.len() - i,
        {
            proof {
                assert(want.take(i + 1) =~= want.take(i as int).push(want[i as int]));
                want.take(i as int).lemma_flatten_push(want[i as int]);
                lemma_flatten_take_len(want, i + 1);
            }
            item_estimate = item_estimate + rows[i].len();
            i = i + 1;
        }
        let mut builder = Jagged2Builder::with_capacity(row_estimate, item_estimate);
        for row in it: rows
            invariant
                want.len() == it.seq().len(),
                forall|k: int| 0 <= k < want.len() ==> want[k] == (#[trigger] it.seq()[k])@,
                want.flatten().len() <= usize::MAX,
                builder.wf(),
                builder@ == want.take(it.index() as int),
                builder.flat().len() == want.take(it.index() as int).flatten().len(),
        {
            proof {
                let k = it.index() as int;
                assert(want.take(k + 1) =~= want.take(k).push(want[k]));
                want.take(k).lemma_flatten_push(want[k]);
                lemma_flatten_take_len(want, k + 1);
            }
            builder.extend(row);
            proof {
                builder.lemma_flat_is_rows();
            }
        }
        proof {
            assert(want.take(want.len() as int) =~= want);
        }
        Jagged2::from(builder)
    }

    /// A streaming iterator over the rows of the array, in order. It starts
    /// before the first row: `advance` moves to a row and `get` hands it out.
    pub fn stream<'a>(&'a self) -> (r: Stream<'a, T>)
        requires
            self.wf(),
        ensures
            r.wf(),
            r.array() == *self,
            r.current() is None,
            r.remaining() == self@.len(),
    {
        Stream::new(self)
    }

    /// Consumes the array and returns its buffer: all rows, one after another.
    pub fn into_boxed_slice(self) -> (r: Box<[T]>)
        requires
            self.wf(),
        ensures
            r@ == self@.flatten(),
    {
        proof {
            lemma_flatten_rows(self.storage@, self.onsets@);
        }
        self.into_components().0
    }

    /// Consumes the array and returns its buffer and its row table.
    fn into_components(self) -> (r: (Box<[T]>, Box<[(usize, usize)]>))
        ensures
            r.0@ == self.storage@,
            r.1@ == self.onsets@,
    {
        let Jagged2 { storage, onsets } = self;
        (boxed(storage), boxed(onsets))
    }
}

/// `k` numbers one of the first `count` steps of a run (`0 <= k < count`).
pub open spec fn step_within(count: int, k: int) -> bool {
    0 <= k < count
}

impl<T: Hash> Hash for Jagged2<T> {
    /// Feeds the rows to `state`, in order, each as a slice through `hash_row`
    /// (its length, then its items): the hasher passes through states
    /// `states[0]` (as given) to `states[len]` (as left), and step `k` hands
    /// row `k` to `hash_row`, taking the hasher from `states[k]` to
    /// `states[k + 1]`.
    fn hash<H: Hasher>(&self, state: &mut H)
        ensures
            self.wf() ==> exists|states: Seq<H>|
                {
                    &&& states.len() == self@.len() + 1
                    &&& states[0] == *old(state)
                    &&& states.last() == *final(state)
                    &&& forall|k: int|
                        #[trigger] step_within(self@.len() as int, k) ==> exists|r: &[T], s: &mut H|
                            {
                                &&& r@ == self@[k]
                                &&& mut_ref_current(s) == states[k]
                                &&& mut_ref_future(s) == states[k + 1]
                                &&& call_ensures(hash_row::<T, H>, (r, s), ())
                            }
                },
    {
        let ghost mut states: Seq<H> = seq![*state];
        let mut i: usize = 0;
        while i < self.onsets.len()
            invariant
                i <= self.onsets@.len(),
                states.len() == i + 1,
                states[0] == *old(state),
                states.last() == *state,
                self.wf() ==> forall|k: int|
                    #[trigger] step_within(i as int, k) ==> exists|r: &[T], s: &mut H|
                        {
                            &&& r@ == self@[k]
                            &&& mut_ref_current(s) == states[k]
                            &&& mut_ref_future(s) == states[k + 1]
                            &&& call_ensures(hash_row::<T, H>, (r, s), ())
                        },
            decreases self.onsets@.len() - i,
        {
            let (start, len) = self.onsets[i];
            let ghost before = *state;
            let ghost old_states = states;
            let ghost old_i = i as int;
            // Always true of a well-formed array (`wf`); `hash` cannot ask for it.
            if start <= self.storage.len() && len <= self.storage.len() - start {
                let row = slice_subrange(self.storage.as_slice(), start, start + len);
                hash_row(row, state);
                proof {
                    if self.wf() {
                        assert(row@ == self@[i as int]);
                    }
                }
            } else {
                proof {
                    if self.wf() {
                        assert(row_end(self.onsets@[i as int]) <= self.storage@.len());
                    }
                }
            }
            proof {
                states = states.push(*state);
            }
            i = i + 1;
            proof {
                if self.wf() {
                    assert forall|k: int| #[trigger] step_within(i as int, k) implies exists|
                        r: &[T],
                        s: &mut H,
                    |
                        {
                            &&& r@ == self@[k]
                            &&& mut_ref_current(s) == states[k]
                            &&& mut_ref_future(s) == states[k + 1]
                            &&& call_ensures(hash_row::<T, H>, (r, s), ())
                        } by {
                        if k < old_i {
                            assert(step_within(old_i, k));
                            assert(states[k] == old_states[k]);
                            assert(states[k + 1] == old_states[k + 1]);
                        } else {
                            assert(states[k] == before);
                            assert(states[k + 1] == *state);
                        }
                    }
                }
            }
        }
        proof {
            if self.wf() {
                assert(self@.len() == self.onsets@.len());
            }
        }
    }
}

/// Calls std's `Hash::hash` on a slice: it writes the slice's length and then
/// hashes each item into `state`. What the hasher makes of it is not stated.
#[verifier::external_body]
pub fn hash_row<T: Hash, H: Hasher>(row: &[T], state: &mut H) {
    row.hash(state)
}

/// Calls `Vec::into_boxed_slice`; its documentation promises that the boxed
/// slice holds the vector's items, in order (only spare capacity is dropped).
#[verifier::external_body]
fn boxed<U>(v: Vec<U>) -> (b: Box<[U]>)
    ensures
        b@ == v@,
{
    v.into_boxed_slice()
}

impl<T> Index<[usize; 2]> for Jagged2<T> {
    type Output = T;

    /// Index into the jagged array, given in `[row, column]` form.
    /// `array[[0, 0]]` is adjacent to `array[[0, 1]]` in memory but not
    /// necessarily to `array[[1, 0]]`.
    fn index(&self, index: [usize; 2]) -> (r: &T)
        ensures
            *r == self@[index[0] as int][index[1] as int],
    {
        self.get(index).unwrap()
    }
}

impl<T> vstd::std_specs::core::IndexSpecImpl<[usize; 2]> for Jagged2<T> {
    /// Indexing asks for an item that exists.
    open spec fn index_req(&self, index: &[usize; 2]) -> bool {
        self.wf() && index_in(self@, *index)
    }
}

impl<T> Default for Jagged2<T> {
    /// The array with no rows.
    fn default() -> (r: Self)
        ensures
            r.wf(),
            r@ == Seq::<Seq<T>>::empty(),
    {
        Jagged2 { storage: Vec::new(), onsets: Vec::new() }
    }
}

impl<T: PartialEq> Jagged2<T> {
    /// Same row table, and items that compare equal one by one.
    pub closed spec fn same_items(&self, other: &Self) -> bool {
        &&& self.onsets@ == other.onsets@
        &&& self.storage@.len() == other.storage@.len()
        &&& forall|k: int|
            0 <= k < self.storage@.len() ==> (#[trigger] self.storage@[k]).eq_spec(&other.storage@[k])
    }
}

/// Same number of rows, rows of the same lengths, and items that compare equal
/// one by one.
pub open spec fn rows_eq<T: PartialEq>(a: Seq<Seq<T>>, b: Seq<Seq<T>>) -> bool {
    &&& same_shape(a, b)
    &&& forall|i: int, j: int|
        0 <= i < a.len() && 0 <= j < a[i].len() ==> (#[trigger] a[i][j]).eq_spec(&b[i][j])
}

impl<T: PartialEq> PartialEq for Jagged2<T> {
    fn eq(&self, other: &Self) -> (r: bool) {
        if self.onsets.len() != other.onsets.len() {
            return false;
        }
        let mut i: usize = 0;
        while i < self.onsets.len()
            invariant
                i <= self.onsets@.len(),
                self.onsets@.len() == other.onsets@.len(),
                forall|m: int| 0 <= m < i ==> self.onsets@[m] == other.onsets@[m],
            decreases self.onsets@.len() - i,
        {
            let (start, len) = self.onsets[i];
            let (other_start, other_len) = other.onsets[i];
            if start != other_start || len != other_len {
                return false;
            }
            i = i + 1;
        }
        assert(self.onsets@ =~= other.onsets@);
        if self.storage.len() != other.storage.len() {
            return false;
        }
        let mut k: usize = 0;
        while k < self.storage.len()
            invariant
                k <= self.storage@.len(),
                self.storage@.len() == other.storage@.len(),
                <T as PartialEqSpec>::obeys_eq_spec() ==> forall|m: int|
                    0 <= m < k ==> (#[trigger] self.storage@[m]).eq_spec(&other.storage@[m]),
            decreases self.storage@.len() - k,
        {
            if !(self.storage[k] == other.storage[k]) {
                return false;
            }
            k = k + 1;
        }
        true
    }
}

impl<T: Eq> Eq for Jagged2<T> {

}

impl<T: PartialEq> PartialEqSpecImpl for Jagged2<T> {
    open spec fn obeys_eq_spec() -> bool {
        <T as PartialEqSpec>::obeys_eq_spec()
    }

    open spec fn eq_spec(&self, other: &Self) -> bool {
        self.same_items(other)
    }
}

impl<T: Clone> Clone for Jagged2<T> {
    /// A copy with the same rows, each item cloned.
    fn clone(&self) -> (r: Self)
        ensures
            r.flat().len() == self.flat().len(),
            forall|k: int| 0 <= k < self.flat().len() ==> cloned::<T>(self.flat()[k], #[trigger] r.flat()[k]),
            self.wf() ==> {
                &&& r.wf()
                &&& same_shape(r@, self@)
                &&& forall|i: int, j: int|
                    0 <= i < self@.len() && 0 <= j < self@[i].len() ==> cloned::<T>(
                        self@[i][j],
                        #[trigger] r@[i][j],
                    )
            },
    {
        let mut onsets: Vec<(usize, usize)> = Vec::with_capacity(self.onsets.len());
        let mut i: usize = 0;
        while i < self.onsets.len()
            invariant
                i <= self.onsets@.len(),
                onsets@ == self.onsets@.take(i as int),
            decreases self.onsets@.len() - i,
        {
            onsets.push(self.onsets[i]);
            i = i + 1;
            assert(onsets@ =~= self.onsets@.take(i as int));
        }
        assert(onsets@ =~= self.onsets@);
        let mut storage: Vec<T> = Vec::with_capacity(self.storage.len());
        let mut k: usize = 0;
        while k < self.storage.len()
            invariant
                k <= self.storage@.len(),
                storage@.len() == k,
                forall|m: int| 0 <= m < k ==> cloned::<T>(self.storage@[m], #[trigger] storage@[m]),
            decreases self.storage@.len() - k,
        {
            storage.push(self.storage[k].clone());
            k = k + 1;
        }
        let r = Jagged2 { storage, onsets };
        proof {
            if self.wf() {
                assert forall|i: int, j: int|
                    0 <= i < self@.len() && 0 <= j < self@[i].len() implies cloned::<T>(
                    self@[i][j],
                    #[trigger] r@[i][j],
                ) by {
                    assert(row_end(self.onsets@[i]) <= self.storage@.len());
                    assert(self@[i][j] == self.storage@[self.onsets@[i].0 + j]);
                    assert(r@[i][j] == r.storage@[self.onsets@[i].0 + j]);
                }
                assert forall|i: int| 0 <= i < r@.len() implies (#[trigger] r@[i]).len() == self@[i].len() by {
                    assert(row_end(self.onsets@[i]) <= self.storage@.len());
                }
            }
        }
        r
    }
}

/// The buffer of a well-formed array is its rows, one after another.
pub proof fn lemma_flat_is_rows<T>(a: &Jagged2<T>)
    requires
        a.wf(),
    ensures
        a.flat() == a@.flatten(),
{
    a.lemma_unfold();
    lemma_flatten_rows(a.storage@, a.onsets@);
}

/// Two well-formed arrays compare equal (`==`) exactly when they have the same
/// number of rows, rows of the same lengths, and items that compare equal one
/// by one.
pub proof fn lemma_eq_iff_rows_eq<T: PartialEq>(a: &Jagged2<T>, b: &Jagged2<T>)
    requires
        a.wf(),
        b.wf(),
    ensures
        PartialEqSpec::eq_spec(a, b) <==> rows_eq(a@, b@),
{
    let oa = a.onsets@;
    let ob = b.onsets@;
    let sa = a.storage@;
    let sb = b.storage@;
    assert forall|i: int| 0 <= i < oa.len() implies (#[trigger] a@[i]).len() == oa[i].1 by {
        assert(row_end(oa[i]) <= sa.len());
    }
    assert forall|i: int| 0 <= i < ob.len() implies (#[trigger] b@[i]).len() == ob[i].1 by {
        assert(row_end(ob[i]) <= sb.len());
    }
    if PartialEqSpec::eq_spec(a, b) {
        assert forall|i: int, j: int|
            0 <= i < a@.len() && 0 <= j < a@[i].len() implies (#[trigger] a@[i][j]).eq_spec(&b@[i][j]) by {
            assert(row_end(oa[i]) <= sa.len());
            assert(a@[i][j] == sa[oa[i].0 + j]);
            assert(b@[i][j] == sb[oa[i].0 + j]);
        }
    }
    if rows_eq(a@, b@) {
        assert forall|i: int| 0 <= i < oa.len() implies (#[trigger] oa[i]).1 == ob[i].1 by {
            assert(a@[i].len() == b@[i].len());
        }
        lemma_onsets_from_lengths(oa, sa.len() as int, ob, sb.len() as int);
        assert forall|k: int| 0 <= k < sa.len() implies (#[trigger] sa[k]).eq_spec(&sb[k]) by {
            let i = lemma_offset_in_row(oa, sa.len() as int, k);
            let j = k - oa[i].0;
            assert(a@[i][j] == sa[k]);
            assert(b@[i][j] == sb[k]);
        }
    }
}

/// Writing one item (as `get_mut` does) keeps the shape of the rows; reading
/// that item back gives what was written, and every other item is unchanged.
pub proof fn lemma_write_then_read<T>(rows: Seq<Seq<T>>, index: [usize; 2], v: T, other: [usize; 2])
    requires
        index_in(rows, index),
    ensures
        ({
            let written = rows.update(index[0] as int, rows[index[0] as int].update(index[1] as int, v));
            &&& same_shape(written, rows)
            &&& written[index[0] as int][index[1] as int] == v
            &&& index_in(rows, other) && (other[0] != index[0] || other[1] != index[1]) ==> written[other[0] as int][other[1] as int]
                == rows[other[0] as int][other[1] as int]
        }),
{
}

/// Item `[row, column]` of a well-formed array lies in the buffer right after
/// all items of the rows before it, at offset `column` within its row; so
/// `[row, column]` and `[row, column + 1]` are neighbours in memory.
pub proof fn lemma_item_offset<T>(a: &Jagged2<T>, index: [usize; 2])
    requires
        a.wf(),
        index_in(a@, index),
    ensures
        a.flat()[a@.take(index[0] as int).flatten().len() + index[1]] == a@[index[0] as int][index[1] as int],
{
    a.lemma_unfold();
    lemma_flatten_prefix(a.storage@, a.onsets@, index[0] as int);
    assert(row_end(a.onsets@[index[0] as int]) <= a.storage@.len());
}

/// Arrays with the same rows compare equal (`==`), provided each of their
/// items compares equal to itself: an array finalized from a builder and one
/// made by `from_iter` from the same rows are equal.
pub proof fn lemma_same_rows_eq<T: PartialEq>(a: &Jagged2<T>, b: &Jagged2<T>)
    requires
        a.wf(),
        b.wf(),
        a@ == b@,
        forall|i: int, j: int|
            0 <= i < a@.len() && 0 <= j < a@[i].len() ==> (#[trigger] a@[i][j]).eq_spec(&a@[i][j]),
    ensures
        PartialEqSpec::eq_spec(a, b),
{
    lemma_eq_iff_rows_eq(a, b);
}

} // verus!
