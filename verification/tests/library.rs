use std::collections::hash_map::DefaultHasher;
use std::hash::{Hash, Hasher};
use jagged_array::{format_rows, Jagged2, Jagged2Builder};

fn sample() -> Jagged2<u32> {
    Jagged2::from_iter(vec![vec![1, 2, 3], vec![4], vec![], vec![5, 6]])
}

#[test]
fn builder_rows_match_from_iter() {
    let mut builder = Jagged2Builder::new();
    builder.extend_from_slice(&[1, 2, 3]);
    builder.extend(vec![4]);
    builder.extend_from_slice(&[]);
    builder.extend((5..7).collect());
    assert_eq!(builder.len(), 4);
    assert_eq!(builder.flat_len(), 6);
    let a: Jagged2<u32> = builder.into();
    assert_eq!(a, sample());
}

#[test]
fn builder_with_capacity_starts_empty() {
    let mut builder: Jagged2Builder<u32> = Jagged2Builder::with_capacity(3, 10);
    assert_eq!(builder.len(), 0);
    assert_eq!(builder.flat_len(), 0);
    builder.extend_from_slice(&[1, 2]);
    builder.extend(vec![0, 1]);
    builder.extend(vec![3]);
    let array: Jagged2<u32> = builder.into();
    assert_eq!(array.len(), 3);
    assert_eq!(array.get_row(0), Some(&[1, 2][..]));
    assert_eq!(array.get_row(1), Some(&[0, 1][..]));
    assert_eq!(array.get_row(2), Some(&[3][..]));
}

#[test]
fn builder_resize_grows_with_empty_rows() {
    let mut builder: Jagged2Builder<u32> = Jagged2Builder::new();
    builder.extend_from_slice(&[1, 2]);
    builder.extend_from_slice(&[3]);
    builder.resize(4);
    let mut expected: Jagged2Builder<u32> = Jagged2Builder::new();
    expected.extend_from_slice(&[1, 2]);
    expected.extend_from_slice(&[3]);
    expected.extend_from_slice(&[]);
    expected.extend_from_slice(&[]);
    assert_eq!(builder, expected);
    assert_eq!(builder.flat_len(), 3);
}

#[test]
fn builder_resize_truncates_rows_and_items() {
    let mut builder: Jagged2Builder<u32> = Jagged2Builder::new();
    builder.extend_from_slice(&[1, 2]);
    builder.extend_from_slice(&[3]);
    builder.extend_from_slice(&[4, 5, 6]);
    builder.resize(1);
    assert_eq!(builder.len(), 1);
    assert_eq!(builder.flat_len(), 2);
    let mut expected: Jagged2Builder<u32> = Jagged2Builder::new();
    expected.extend_from_slice(&[1, 2]);
    assert_eq!(builder, expected);
    builder.resize(0);
    assert_eq!(builder.len(), 0);
    assert_eq!(builder.flat_len(), 0);
    assert_eq!(builder, Jagged2Builder::new());
}

#[test]
fn builder_resize_same_length_keeps_rows() {
    let mut builder: Jagged2Builder<u32> = Jagged2Builder::default();
    builder.extend_from_slice(&[7]);
    builder.extend_from_slice(&[8, 9]);
    let before = builder.clone();
    builder.resize(2);
    assert_eq!(builder, before);
}

#[test]
fn readme_example() {
    let mut a = sample();
    assert_eq!(a[[1, 0]], 4);
    *a.get_mut([1, 0]).unwrap() = 11;
    assert_eq!(a.get([1, 0]), Some(&11));
    assert_eq!(a.get_row(3), Some(&[5, 6][..]));
    a.get_row_mut(3).unwrap()[1] = 11;
    assert_eq!(a[[3, 1]], 11);
    assert_eq!(a.as_flat_slice(), &[1, 2, 3, 11, 5, 11][..]);
}

#[test]
fn get_mut_out_of_range_is_none() {
    let mut a = sample();
    assert!(a.get_mut([2, 0]).is_none());
    assert!(a.get_mut([4, 0]).is_none());
    assert!(a.get_mut([0, 3]).is_none());
    assert!(a.get_row_mut(4).is_none());
    assert_eq!(a, sample());
}

#[test]
fn get_row_mut_changes_one_row() {
    let mut a = sample();
    assert_eq!(a.get_row_mut(3), Some(&mut [5, 6][..]));
    for x in a.get_row_mut(0).unwrap().iter_mut() {
        *x *= 10;
    }
    assert_eq!(a.as_flat_slice(), &[10, 20, 30, 4, 5, 6][..]);
    assert_eq!(a.get_row(2), Some(&[][..]));
}

#[test]
fn flat_slice_is_rows_in_order() {
    let mut a = sample();
    assert_eq!(a.as_flat_slice(), &[1, 2, 3, 4, 5, 6][..]);
    assert_eq!(a.as_flat_slice()[3], 4);
    a.as_flat_slice_mut()[3] = 33;
    assert_eq!(a[[1, 0]], 33);
    assert_eq!(a.len(), 4);
    assert_eq!(a.flat_len(), 6);
    let boxed = a.into_boxed_slice();
    assert_eq!(&boxed[..], &[1, 2, 3, 33, 5, 6][..]);
}

#[test]
fn len_and_is_empty() {
    let a = sample();
    assert_eq!(a.len(), 4);
    assert!(!a.is_empty());
    let e: Jagged2<u8> = Jagged2::default();
    assert!(e.is_empty());
    let only_empty_rows: Jagged2<u8> = Jagged2::from_iter(vec![vec![], vec![]]);
    assert!(!only_empty_rows.is_empty());
    assert_eq!(only_empty_rows.flat_len(), 0);
    assert_eq!(only_empty_rows.as_flat_slice(), &[] as &[u8]);
}

#[test]
fn clone_is_equal_and_independent() {
    let a = Jagged2::from_iter(vec![vec![String::from("x")], vec![], vec![String::from("y"), String::from("z")]]);
    let mut b = a.clone();
    assert_eq!(a, b);
    *b.get_mut([2, 1]).unwrap() = String::from("w");
    assert_ne!(a, b);
    assert_eq!(a[[2, 1]], "z");
}

#[test]
fn eq_compares_shape_then_items() {
    let a = Jagged2::from_iter(vec![vec![1, 2], vec![3]]);
    let b = Jagged2::from_iter(vec![vec![1], vec![2, 3]]);
    assert_eq!(a.as_flat_slice(), b.as_flat_slice());
    assert_ne!(a, b);
    let e1: Jagged2<i32> = Jagged2::default();
    let e2: Jagged2<i32> = Jagged2::from_iter(vec![]);
    assert_eq!(e1, e2);
}

#[test]
fn stream_yields_rows_in_order() {
    let a = sample();
    let mut s = a.stream();
    assert_eq!(s.get(), None);
    assert_eq!(s.size_hint(), (4, Some(4)));
    s.advance();
    assert_eq!(s.get(), Some(&[1, 2, 3][..]));
    assert_eq!(s.size_hint(), (3, Some(3)));
    s.advance();
    assert_eq!(s.get(), Some(&[4][..]));
    s.advance();
    assert_eq!(s.get(), Some(&[][..]));
    s.advance();
    assert_eq!(s.get(), Some(&[5, 6][..]));
    assert_eq!(s.size_hint(), (0, Some(0)));
    s.advance();
    assert_eq!(s.get(), None);
    s.advance();
    assert_eq!(s.get(), None);
}

#[test]
fn stream_nth_and_count() {
    let a = sample();
    let mut s = a.stream();
    assert_eq!(s.nth(0), Some(&[1, 2, 3][..]));
    assert_eq!(s.nth(1), Some(&[][..]));
    assert_eq!(s.get(), Some(&[][..]));
    assert_eq!(s.size_hint(), (1, Some(1)));
    let mut t = a.stream();
    t.advance();
    assert_eq!(t.count(), 3);
    let mut u = a.stream();
    assert_eq!(u.nth(4), None);
    assert_eq!(u.get(), None);
    assert_eq!(u.count(), 0);
    let mut v = a.stream();
    assert_eq!(v.nth(9), None);
    assert_eq!(a.stream().count(), 4);
}

#[test]
fn debug_string_lays_out_rows() {
    let a = Jagged2::from_iter(vec![vec![1, 2], vec![], vec![3]]);
    assert_eq!(a.debug_string(), "[\n  [1, 2]\n  []\n  [3]\n]");
    let e: Jagged2<u8> = Jagged2::default();
    assert_eq!(e.debug_string(), "[]");
}

#[test]
fn format_rows_exact() {
    assert_eq!(format_rows(&vec![]), "[]");
    assert_eq!(format_rows(&vec![String::from("a"), String::from("")]), "[\n  a\n  \n]");
}

#[test]
fn item_offset_follows_previous_rows() {
    let a = sample();
    let mut before = 0;
    for row in 0..a.len() {
        let cols = a.get_row(row).unwrap().len();
        for col in 0..cols {
            assert_eq!(a.as_flat_slice()[before + col], a[[row, col]]);
        }
        before += cols;
    }
    assert_eq!(before, a.flat_len());
}

#[test]
fn hash_feeds_rows_in_order() {
    let a = sample();
    let mut got = DefaultHasher::new();
    a.hash(&mut got);
    let mut want = DefaultHasher::new();
    for i in 0..a.len() {
        a.get_row(i).unwrap().hash(&mut want);
    }
    assert_eq!(got.finish(), want.finish());
    // Same items, other row boundaries: the row lengths are hashed too.
    let b = Jagged2::from_iter(vec![vec![1, 2], vec![3, 4], vec![], vec![5, 6]]);
    let mut hb = DefaultHasher::new();
    b.hash(&mut hb);
    assert_ne!(got.finish(), hb.finish());
    let mut hc = DefaultHasher::new();
    a.clone().hash(&mut hc);
    assert_eq!(hc.finish(), want.finish());
}

#[test]
fn resize_twice_is_resize_once() {
    let mut b: Jagged2Builder<u32> = Jagged2Builder::new();
    b.extend_from_slice(&[1, 2]);
    b.extend_from_slice(&[3]);
    let mut c = b.clone();
    b.resize(5);
    b.resize(2);
    c.resize(2);
    assert_eq!(b, c);
    let mut d = b.clone();
    d.resize(4);
    d.resize(4);
    b.resize(4);
    assert_eq!(b, d);
}

#[test]
fn len_counts_extends() {
    let mut b: Jagged2Builder<u32> = Jagged2Builder::new();
    for k in 0..5u32 {
        assert_eq!(b.len(), k as usize);
        b.extend((0..k % 2).collect());
    }
    assert_eq!(b.len(), 5);
    let a: Jagged2<u32> = b.into();
    assert_eq!(a.len(), 5);
    assert_eq!(a, Jagged2::from_iter(vec![vec![], vec![0], vec![], vec![0], vec![]]));
}

#[test]
fn builder_clone_keeps_rows() {
    let mut b: Jagged2Builder<String> = Jagged2Builder::new();
    b.extend(vec![String::from("a")]);
    b.extend(vec![]);
    let c = b.clone();
    assert_eq!(b, c);
    assert_eq!(c.len(), 2);
    assert_eq!(c.flat_len(), 1);
}
