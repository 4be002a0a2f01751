//! The layout shared by `Jagged2` and `Jagged2Builder`: a flat buffer of items
//! and, per row, the offset of its first item and its length. Rows follow one
//! another without gaps and together cover the whole buffer.

use vstd::prelude::*;

verus! {

/// Offset one past the last item of a row.
pub open spec fn row_end(onset: (usize, usize)) -> int {
    onset.0 + onset.1
}

/// The row table `o` lays out a flat buffer of `total` items.
pub open spec fn onsets_wf(o: Seq<(usize, usize)>, total: int) -> bool {
    &&& o.len() == 0 ==> total == 0
    &&& o.len() > 0 ==> o[0].0 == 0 && row_end(o.last()) == total
    &&& forall|i: int| 0 <= i < o.len() ==> row_end(#[trigger] o[i]) <= total
    &&& forall|i: int, j: int|
        #![trigger o[i], o[j]]
        0 <= i < j < o.len() ==> row_end(o[i]) <= o[j].0
    &&& forall|i: int, j: int|
        #![trigger o[i], o[j]]
        0 <= i && j == i + 1 && j < o.len() ==> o[j].0 == row_end(o[i])
}

/// The rows that the row table `o` cuts out of the flat buffer `s`.
pub open spec fn rows_of<T>(s: Seq<T>, o: Seq<(usize, usize)>) -> Seq<Seq<T>> {
    Seq::new(o.len(), |i: int| s.subrange(o[i].0 as int, row_end(o[i])))
}

/// Two row sequences have the same number of rows, each of the same length.
pub open spec fn same_shape<T>(a: Seq<Seq<T>>, b: Seq<Seq<T>>) -> bool {
    &&& a.len() == b.len()
    &&& forall|i: int| 0 <= i < a.len() ==> (#[trigger] a[i]).len() == b[i].len()
}

/// Offset at which row `k` starts (the buffer's length when `k` is past the last row).
pub open spec fn start_of(o: Seq<(usize, usize)>, total: int, k: int) -> int {
    if k < o.len() {
        o[k].0 as int
    } else {
        total
    }
}

/// Appending a row of `r` items at the end of the buffer keeps the layout valid
/// and adds `r` as the last row.
pub proof fn lemma_rows_push<T>(s: Seq<T>, o: Seq<(usize, usize)>, r: Seq<T>)
    requires
        onsets_wf(o, s.len() as int),
        s.len() + r.len() <= usize::MAX,
    ensures
        onsets_wf(o.push((s.len() as usize, r.len() as usize)), (s.len() + r.len()) as int),
        rows_of(s + r, o.push((s.len() as usize, r.len() as usize))) =~= rows_of(s, o).push(r),
{
    let o2 = o.push((s.len() as usize, r.len() as usize));
    assert forall|i: int| 0 <= i < o.len() implies (s + r).subrange(
        o[i].0 as int,
        row_end(o[i]),
    ) =~= s.subrange(o[i].0 as int, row_end(o[i])) by {
        assert(row_end(o[i]) <= s.len());
    }
    assert((s + r).subrange(s.len() as int, (s.len() + r.len()) as int) =~= r);
    assert forall|i: int, j: int|
        #![trigger o2[i], o2[j]]
        0 <= i < j < o2.len() implies row_end(o2[i]) <= o2[j].0 by {
        if j < o.len() {
            assert(o2[i] == o[i] && o2[j] == o[j]);
        } else {
            assert(o2[i] == o[i]);
            assert(row_end(o[i]) <= s.len());
        }
    }
    assert forall|i: int, j: int|
        #![trigger o2[i], o2[j]]
        0 <= i && j == i + 1 && j < o2.len() implies o2[j].0 == row_end(o2[i]) by {
        if j < o.len() {
            assert(o2[i] == o[i] && o2[j] == o[j]);
        } else {
            assert(o2[i] == o.last());
        }
    }
    assert forall|i: int| 0 <= i < o2.len() implies row_end(#[trigger] o2[i]) <= s.len()
        + r.len() by {
        if i < o.len() {
            assert(o2[i] == o[i]);
        }
    }
}

/// The rows before row `k` cover exactly the buffer before `start_of(k)`.
pub proof fn lemma_flatten_prefix<T>(s: Seq<T>, o: Seq<(usize, usize)>, k: int)
    requires
        onsets_wf(o, s.len() as int),
        0 <= k <= o.len(),
    ensures
        rows_of(s, o).take(k).flatten() =~= s.take(start_of(o, s.len() as int, k)),
    decreases k,
{
    let rows = rows_of(s, o);
    if k == 0 {
        if o.len() > 0 {
            assert(o[0].0 == 0);
        }
        assert(rows.take(0) =~= Seq::<Seq<T>>::empty());
    } else {
        lemma_flatten_prefix(s, o, k - 1);
        assert(rows.take(k) =~= rows.take(k - 1).push(rows[k - 1]));
        rows.take(k - 1).lemma_flatten_push(rows[k - 1]);
        let a = start_of(o, s.len() as int, k - 1);
        let b = start_of(o, s.len() as int, k);
        assert(a == o[k - 1].0);
        if k < o.len() {
            assert(o[k].0 == row_end(o[k - 1]));
        } else {
            assert(o.last() == o[k - 1]);
        }
        assert(b == row_end(o[k - 1]));
        assert(s.take(a) + s.subrange(a, b) =~= s.take(b));
    }
}

/// Concatenating the rows gives back the whole buffer.
pub proof fn lemma_flatten_rows<T>(s: Seq<T>, o: Seq<(usize, usize)>)
    requires
        onsets_wf(o, s.len() as int),
    ensures
        rows_of(s, o).flatten() =~= s,
{
    lemma_flatten_prefix(s, o, o.len() as int);
    assert(rows_of(s, o).take(o.len() as int) =~= rows_of(s, o));
    assert(s.take(s.len() as int) =~= s);
}

/// Keeping the first `k` rows and the part of the buffer they cover keeps the
/// layout valid; that part ends where row `k` would start.
pub proof fn lemma_rows_take<T>(s: Seq<T>, o: Seq<(usize, usize)>, k: int)
    requires
        onsets_wf(o, s.len() as int),
        0 <= k <= o.len(),
    ensures
        0 <= start_of(o, s.len() as int, k) <= s.len(),
        k > 0 ==> start_of(o, s.len() as int, k) == row_end(o[k - 1]),
        onsets_wf(o.take(k), start_of(o, s.len() as int, k)),
        rows_of(s.take(start_of(o, s.len() as int, k)), o.take(k)) =~= rows_of(s, o).take(k),
{
    let t = start_of(o, s.len() as int, k);
    let o2 = o.take(k);
    if k > 0 {
        if k < o.len() {
            assert(o[k].0 == row_end(o[k - 1]));
        } else {
            assert(o.last() == o[k - 1]);
        }
    } else if o.len() > 0 {
        assert(o[0].0 == 0);
    }
    if k < o.len() {
        assert(row_end(o[k]) <= s.len());
    }
    assert forall|i: int| 0 <= i < o2.len() implies row_end(#[trigger] o2[i]) <= t by {
        assert(o2[i] == o[i]);
        if i < k - 1 {
            assert(row_end(o[i]) <= o[k - 1].0);
        }
    }
    assert forall|i: int, j: int|
        #![trigger o2[i], o2[j]]
        0 <= i < j < o2.len() implies row_end(o2[i]) <= o2[j].0 by {
        assert(o2[i] == o[i] && o2[j] == o[j]);
    }
    assert forall|i: int, j: int|
        #![trigger o2[i], o2[j]]
        0 <= i && j == i + 1 && j < o2.len() implies o2[j].0 == row_end(o2[i]) by {
        assert(o2[i] == o[i] && o2[j] == o[j]);
    }
    if k > 0 {
        assert(o2.last() == o[k - 1]);
        assert(o2[0] == o[0]);
    }
    assert forall|i: int| 0 <= i < k implies #[trigger] rows_of(s.take(t), o2)[i] =~= rows_of(
        s,
        o,
    )[i] by {
        assert(o2[i] == o[i]);
        assert(row_end(o2[i]) <= t);
    }
}

/// Writing the item in column `j` of row `i` of the buffer changes that item of
/// that row and nothing else.
pub proof fn lemma_rows_update<T>(s: Seq<T>, o: Seq<(usize, usize)>, i: int, j: int, v: T)
    requires
        onsets_wf(o, s.len() as int),
        0 <= i < o.len(),
        0 <= j < o[i].1,
    ensures
        rows_of(s.update(o[i].0 + j, v), o) =~= rows_of(s, o).update(
            i,
            rows_of(s, o)[i].update(j, v),
        ),
{
    let k = o[i].0 + j;
    let s2 = s.update(k, v);
    assert forall|m: int| 0 <= m < o.len() implies #[trigger] rows_of(s2, o)[m] =~= rows_of(
        s,
        o,
    ).update(i, rows_of(s, o)[i].update(j, v))[m] by {
        assert(row_end(o[m]) <= s.len());
        if m < i {
            assert(row_end(o[m]) <= o[i].0);
        } else if m > i {
            assert(row_end(o[i]) <= o[m].0);
        }
    }
}

/// Overwriting the whole of row `i` in the buffer with `x`, of the same length,
/// replaces that row and nothing else.
pub proof fn lemma_rows_replace<T>(s: Seq<T>, o: Seq<(usize, usize)>, i: int, x: Seq<T>)
    requires
        onsets_wf(o, s.len() as int),
        0 <= i < o.len(),
    ensures
        x.len() == o[i].1 ==> (s.take(o[i].0 as int) + x + s.subrange(row_end(o[i]), s.len() as int)).len() == s.len(),
        x.len() == o[i].1 ==> rows_of(s.take(o[i].0 as int) + x + s.subrange(row_end(o[i]), s.len() as int), o)
            =~= rows_of(s, o).update(i, x),
{
    if x.len() != o[i].1 {
        return;
    }
    let a = o[i].0 as int;
    let b = row_end(o[i]);
    assert(b <= s.len());
    let s2 = s.take(a) + x + s.subrange(b, s.len() as int);
    assert forall|m: int| 0 <= m < o.len() implies #[trigger] rows_of(s2, o)[m] =~= rows_of(
        s,
        o,
    ).update(i, x)[m] by {
        assert(row_end(o[m]) <= s.len());
        if m < i {
            assert(row_end(o[m]) <= o[i].0);
        } else if m > i {
            assert(row_end(o[i]) <= o[m].0);
        }
    }
}

/// Two valid row tables with rows of the same lengths are the same table.
pub proof fn lemma_onsets_from_lengths(o1: Seq<(usize, usize)>, t1: int, o2: Seq<(usize, usize)>, t2: int)
    requires
        onsets_wf(o1, t1),
        onsets_wf(o2, t2),
        o1.len() == o2.len(),
        forall|i: int| 0 <= i < o1.len() ==> (#[trigger] o1[i]).1 == o2[i].1,
    ensures
        o1 =~= o2,
        t1 == t2,
{
    assert forall|k: int| 0 <= k < o1.len() implies #[trigger] o1[k] == o2[k] by {
        lemma_onset_starts_agree(o1, t1, o2, t2, k);
    }
    if o1.len() > 0 {
        assert(o1.last() == o2.last());
    }
}

proof fn lemma_onset_starts_agree(
    o1: Seq<(usize, usize)>,
    t1: int,
    o2: Seq<(usize, usize)>,
    t2: int,
    k: int,
)
    requires
        onsets_wf(o1, t1),
        onsets_wf(o2, t2),
        o1.len() == o2.len(),
        forall|i: int| 0 <= i < o1.len() ==> (#[trigger] o1[i]).1 == o2[i].1,
        0 <= k < o1.len(),
    ensures
        o1[k] == o2[k],
    decreases k,
{
    assert(o1[k].1 == o2[k].1);
    if k == 0 {
        assert(o1[0].0 == 0 && o2[0].0 == 0);
    } else {
        lemma_onset_starts_agree(o1, t1, o2, t2, k - 1);
        assert(o1[k].0 == row_end(o1[k - 1]));
        assert(o2[k].0 == row_end(o2[k - 1]));
    }
}

/// Every offset of the buffer lies in some row.
pub proof fn lemma_offset_in_row(o: Seq<(usize, usize)>, total: int, k: int) -> (i: int)
    requires
        onsets_wf(o, total),
        0 <= k < total,
    ensures
        0 <= i < o.len(),
        o[i].0 <= k < row_end(o[i]),
{
    lemma_offset_in_row_from(o, total, k, o.len() - 1)
}

proof fn lemma_offset_in_row_from(o: Seq<(usize, usize)>, total: int, k: int, r: int) -> (i: int)
    requires
        onsets_wf(o, total),
        0 <= k,
        0 <= r < o.len(),
        k < row_end(o[r]),
    ensures
        0 <= i <= r,
        o[i].0 <= k < row_end(o[i]),
    decreases r,
{
    if k >= o[r].0 {
        r
    } else {
        if r == 0 {
            assert(o[0].0 == 0);
        }
        assert(o[r].0 == row_end(o[r - 1]));
        lemma_offset_in_row_from(o, total, k, r - 1)
    }
}

/// A buffer of the same length under the same row table has rows of the same
/// lengths, and concatenating them gives back that buffer.
pub proof fn lemma_same_layout_same_shape<T>(s: Seq<T>, s2: Seq<T>, o: Seq<(usize, usize)>)
    requires
        onsets_wf(o, s.len() as int),
    ensures
        s2.len() == s.len() ==> onsets_wf(o, s2.len() as int),
        s2.len() == s.len() ==> same_shape(rows_of(s2, o), rows_of(s, o)),
        s2.len() == s.len() ==> rows_of(s2, o).flatten() =~= s2,
{
    if s2.len() == s.len() {
        assert forall|i: int| 0 <= i < o.len() implies row_end(#[trigger] o[i]) <= s.len() by {}
        lemma_flatten_rows(s2, o);
    }
}

/// The first `k` rows hold no more items than all rows do.
pub proof fn lemma_flatten_take_len<T>(s: Seq<Seq<T>>, k: int)
    requires
        0 <= k <= s.len(),
    ensures
        s.take(k).flatten().len() <= s.flatten().len(),
    decreases s.len() - k,
{
    if k < s.len() {
        lemma_flatten_take_len(s, k + 1);
        assert(s.take(k + 1) =~= s.take(k).push(s[k]));
        s.take(k).lemma_flatten_push(s[k]);
    } else {
        assert(s.take(k) =~= s);
    }
}

/// Keeping the shape is preserved along any chain of writes: if each write
/// keeps the row count and every row's length, so do all of them together,
/// and the total number of items stays the same.
pub proof fn lemma_same_shape_chain<T>(a: Seq<Seq<T>>, b: Seq<Seq<T>>, c: Seq<Seq<T>>)
    requires
        same_shape(a, b),
        same_shape(b, c),
    ensures
        same_shape(a, c),
        a.flatten().len() == c.flatten().len(),
{
    lemma_same_shape_flat_len(a, b);
    lemma_same_shape_flat_len(b, c);
}

/// Rows of the same shape hold the same number of items in all.
pub proof fn lemma_same_shape_flat_len<T>(a: Seq<Seq<T>>, b: Seq<Seq<T>>)
    requires
        same_shape(a, b),
    ensures
        a.flatten().len() == b.flatten().len(),
    decreases a.len(),
{
    if a.len() > 0 {
        assert(a[0].len() == b[0].len());
        assert forall|i: int| 0 <= i < a.drop_first().len() implies (#[trigger] a.drop_first()[i]).len()
            == b.drop_first()[i].len() by {
            assert(a[i + 1].len() == b[i + 1].len());
        }
        lemma_same_shape_flat_len(a.drop_first(), b.drop_first());
    }
}

} // verus!
