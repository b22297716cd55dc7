use comp_prog_lib::data_structure::segment_tree::SegmentTree;
use comp_prog_lib::math::monoid::{Max, Min, Monoid};

#[test]
fn max_i64_scenario() {
    let st = SegmentTree::from(vec![3i64, -1, 4, 1, 5, 9, 2, 6].into_iter().map(Max).collect());
    assert_eq!(st.query(0, 8).0, 9);
    assert_eq!(st.query(1, 4).0, 4);
    assert_eq!(st.query(6, 6).0, i64::MIN);
    let mut st = st;
    st.update(2, Max(100));
    assert_eq!(st.query(0, 8).0, 100);
}

#[test]
fn min_u64_scenario() {
    let mut st = SegmentTree::from(vec![5u64, 3, 8, 1].into_iter().map(Min).collect());
    assert_eq!(st.query(0, 2).0, 3);
    assert_eq!(st.query(2, 4).0, 1);
    st.update(3, Min(0));
    assert_eq!(st.query(0, 4).0, 0);
}

#[test]
fn empty_range_gives_identity() {
    let st = SegmentTree::from(vec![Min(7u32), Min(2), Min(9)]);
    for k in 0..=4 {
        assert_eq!(st.query(k, k).0, u32::MAX);
    }
}

#[test]
fn new_tree_holds_identity_everywhere() {
    let st: SegmentTree<Max<i32>> = SegmentTree::new(5);
    assert_eq!(st.query(0, 8).0, i32::MIN);
    let st: SegmentTree<Min<usize>> = SegmentTree::new(0);
    assert_eq!(st.query(0, 1).0, usize::MAX);
}

#[test]
fn padding_positions_hold_identity() {
    let st = SegmentTree::from(vec![Max(-5isize), Max(-7), Max(-6)]);
    assert_eq!(st.query(3, 4).0, isize::MIN);
    assert_eq!(st.query(0, 4).0, -5);
    assert_eq!(st.query(1, 4).0, -6);
}

fn assert_all_ranges_max(v: &[i64]) {
    let st = SegmentTree::from(v.iter().cloned().map(Max).collect());
    for i in 0..v.len() {
        for j in i..=v.len() {
            let expected = v[i..j].iter().cloned().max().unwrap_or(i64::MIN);
            assert_eq!(st.query(i, j).0, expected);
        }
    }
}

fn assert_all_ranges_min(v: &[u64]) {
    let st = SegmentTree::from(v.iter().cloned().map(Min).collect());
    for i in 0..v.len() {
        for j in i..=v.len() {
            let expected = v[i..j].iter().cloned().min().unwrap_or(u64::MAX);
            assert_eq!(st.query(i, j).0, expected);
        }
    }
}

#[test]
fn query_equals_fold_on_every_range() {
    assert_all_ranges_max(&[4, -8, 15, 16, -23, 42, 0, 7, 7, -1, 3]);
    assert_all_ranges_max(&[1]);
    assert_all_ranges_min(&[9, 2, 6, 5, 3, 5, 8, 9, 7, 9, 3, 2, 3, 8, 4, 6, 2]);
    let mut x: u64 = 12345;
    let mut v = Vec::new();
    for _ in 0..37 {
        x = x.wrapping_mul(6364136223846793005).wrapping_add(1442695040888963407);
        v.push(x >> 40);
    }
    assert_all_ranges_min(&v);
}

#[test]
fn updates_keep_queries_consistent() {
    let mut values: Vec<i64> = vec![i64::MIN; 13];
    let mut st: SegmentTree<Max<i64>> = SegmentTree::new(13);
    for step in 0..60i64 {
        let i = ((step * 7) % 13) as usize;
        let x = (step * 37) % 101 - 50;
        values[i] = x;
        st.update(i, Max(x));
        for a in 0..13 {
            for b in a..=13 {
                let expected = values[a..b].iter().cloned().max().unwrap_or(i64::MIN);
                let expected = if b > a { expected } else { i64::MIN };
                assert_eq!(st.query(a, b).0, expected);
            }
        }
    }
}

#[test]
fn repeated_update_is_idempotent() {
    let mut once = SegmentTree::from(vec![Min(4i64), Min(8), Min(1), Min(6), Min(3)]);
    once.update(1, Min(-2));
    let mut twice = SegmentTree::from(vec![Min(4i64), Min(8), Min(1), Min(6), Min(3)]);
    twice.update(1, Min(-2));
    twice.update(1, Min(-2));
    for a in 0..8 {
        for b in a..=8 {
            assert_eq!(once.query(a, b).0, twice.query(a, b).0);
        }
    }
}

#[test]
fn monoid_laws_on_values() {
    let xs = [i64::MIN, -3, 0, 5, i64::MAX];
    for &a in &xs {
        let e = Max::<i64>::mempty();
        assert_eq!(e.mappend(&Max(a)).0, a);
        assert_eq!(Max(a).mappend(&e).0, a);
        let e = Min::<i64>::mempty();
        assert_eq!(e.mappend(&Min(a)).0, a);
        assert_eq!(Min(a).mappend(&e).0, a);
        for &b in &xs {
            for &c in &xs {
                let l = Max(a).mappend(&Max(b)).mappend(&Max(c)).0;
                let r = Max(a).mappend(&Max(b).mappend(&Max(c))).0;
                assert_eq!(l, r);
                let l = Min(a).mappend(&Min(b)).mappend(&Min(c)).0;
                let r = Min(a).mappend(&Min(b).mappend(&Min(c))).0;
                assert_eq!(l, r);
            }
        }
    }
    assert_eq!(Max(3u32).mappend(&Max(9)).0, 9);
    assert_eq!(Min(3u32).mappend(&Min(9)).0, 3);
}
