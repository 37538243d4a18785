use procon_lib::btree_binary_search::{BTreeMapBinarySearch, BTreeSetBinarySearch};
use procon_lib::auto_sort_vec::AutoSortVec;
use procon_lib::bit_set::BitSet;
use procon_lib::deletable_binary_heap::DeletableBinaryHeap;
use procon_lib::lazy_segment_tree::{LazySegmentTree, MaxAssignI64, MinAssignI64, SumAddU64};
use procon_lib::segment_tree::{CommutativePairOp, MaxI64, MinI64, SegmentTree, SumI64};
use procon_lib::segment_tree_2d::SegmentTree2D;
use procon_lib::union_find::UnionFind;
use procon_lib::xor_shift_64::XorShift64;

fn check_2d<Op: CommutativePairOp<i64> + Copy>(op: Op, f: fn(i64, i64) -> i64, rand: &mut XorShift64) {
    const N: usize = 10;
    let mut raw = vec![vec![0; N]; N];
    let mut seg = SegmentTree2D::<i64, Op>::new(N, N, op, 0);
    for y in 0..N {
        for x in 0..N {
            let v = rand.next_u64() as i64 % 100;
            seg.set(y, x, v);
            raw[y][x] = v;
        }
    }
    for y0 in 0..N {
        for y1 in y0..N {
            for x0 in 0..N {
                for x1 in x0..N {
                    let seg_v = seg.query(y0, y1, x0, x1);
                    let mut raw_v = raw[y0][x0];
                    for y in y0..=y1 {
                        for x in x0..=x1 {
                            if (y, x) == (y0, x0) {
                                continue;
                            }
                            raw_v = f(raw_v, raw[y][x]);
                        }
                    }
                    assert_eq!(seg_v, raw_v);
                }
            }
        }
    }
}

#[test]
fn random_test() {
    let mut rand = XorShift64::new();
    check_2d(MinI64, |x, y| std::cmp::min(x, y), &mut rand);
    check_2d(MaxI64, |x, y| std::cmp::max(x, y), &mut rand);
    check_2d(SumI64, |x, y| x + y, &mut rand);
}

#[test]
fn segment_tree_2d_add_and_get() {
    let mut seg = SegmentTree2D::<i64, SumI64>::new(3, 4, SumI64, 0);
    seg.add(1, 2, 5);
    seg.add(1, 2, 3);
    seg.add(2, 0, -4);
    assert_eq!(seg.get(1, 2), 8);
    assert_eq!(seg.query(0, 2, 0, 3), 4);
    assert_eq!(seg.query(1, 1, 2, 3), 8);
}

#[test]
fn xorshift_sequence() {
    let mut r = XorShift64::new();
    let mut x: u64 = 88172645463325252;
    for _ in 0..5 {
        x ^= x << 7;
        x ^= x >> 9;
        assert_eq!(r.next_u64(), x);
    }
    let mut r2 = XorShift64::new();
    let mut r3 = XorShift64::new();
    assert_eq!(r2.next_usize() as u64, r3.next_u64());
}

#[test]
fn segment_tree_fold() {
    let mut st = SegmentTree::<i64, SumI64>::new(6, SumI64, 0);
    for i in 0..6 {
        st.set(i, (i as i64) * 10);
    }
    assert_eq!(st.query(0, 5), 150);
    assert_eq!(st.query(2, 3), 50);
    assert_eq!(st.query(4, 4), 40);
    assert_eq!(st.get(3), 30);
    st.add(3, 5);
    st.sub(0, 1);
    assert_eq!(st.query(0, 3), 64);

    let mn = SegmentTree::<i64, MinI64>::from_vec(MinI64, vec![5, 3, 8, -2, 7]);
    assert_eq!(mn.query(0, 2), 3);
    assert_eq!(mn.query(0, 4), -2);
    assert_eq!(mn.query(4, 4), 7);
    let mx = SegmentTree::<i64, MaxI64>::from_vec(MaxI64, vec![5, 3, 8, -2, 7]);
    assert_eq!(mx.query(1, 3), 8);
    assert_eq!(mx.query(3, 4), 7);
}

#[test]
fn union_find_groups_and_deltas() {
    let mut uf = UnionFind::new(6);
    assert_eq!(uf.group_num(), 6);
    assert!(!uf.same(0, 1));
    uf.unite_with_delta(0, 1, 5);
    uf.unite_with_delta(1, 2, 3);
    assert_eq!(uf.group_num(), 4);
    assert!(uf.same(0, 2));
    assert_eq!(uf.get_delta(0, 1), Some(5));
    assert_eq!(uf.get_delta(1, 0), Some(-5));
    assert_eq!(uf.get_delta(0, 2), Some(8));
    assert_eq!(uf.get_delta(0, 3), None);
    assert_eq!(uf.group_size(2), 3);
    uf.unite(3, 4);
    uf.unite(4, 3);
    assert_eq!(uf.group_num(), 3);
    assert_eq!(uf.group_size(4), 2);
    assert_eq!(uf.root(2), uf.root(0));
    assert_eq!(uf.graph[0], vec![1]);
    assert_eq!(uf.graph[4], vec![3, 3]);
}

#[test]
fn lazy_segment_tree_min_assign() {
    let mut st = LazySegmentTree::<i64, i64, MinAssignI64>::new(8, MinAssignI64, 100);
    st.reserve(2, 5, 7);
    assert_eq!(st.query(0, 7), 7);
    assert_eq!(st.query(0, 1), 100);
    st.reserve(4, 6, 3);
    assert_eq!(st.query(2, 3), 7);
    assert_eq!(st.query(5, 7), 3);
    assert_eq!(st.query(6, 6), 3);
    assert_eq!(st.query(7, 7), 100);
}

#[test]
fn lazy_segment_tree_max_assign() {
    let mut st = LazySegmentTree::<i64, i64, MaxAssignI64>::from_vec(MaxAssignI64, vec![1, 9, 2, 4]);
    assert_eq!(st.query(0, 3), 9);
    st.reserve(1, 2, 0);
    assert_eq!(st.query(0, 3), 4);
    assert_eq!(st.query(1, 2), 0);
}

#[test]
fn lazy_segment_tree_sum_add() {
    let init: Vec<(u64, u64)> = (0..5).map(|i| (i as u64, 1)).collect();
    let mut st = LazySegmentTree::<(u64, u64), u64, SumAddU64>::from_vec(SumAddU64, init);
    assert_eq!(st.query(0, 4), (10, 5));
    st.reserve(1, 3, 10);
    assert_eq!(st.query(0, 4), (40, 5));
    assert_eq!(st.query(2, 2), (12, 1));
    assert_eq!(st.query(3, 4), (17, 2));
}

#[test]
fn bitset_bits() {
    let mut b = BitSet::new(2);
    b.set(3, true);
    b.set(64, true);
    b.set(127, true);
    assert!(b.get(3));
    assert!(b.get(64));
    assert!(!b.get(65));
    assert_eq!(b.count_ones(), 3);
    b.set(3, false);
    assert_eq!(b.count_ones(), 2);
    let mut c = BitSet::new(2);
    c.set(64, true);
    c.set(5, true);
    let and = b.clone().bitand(c.clone());
    assert_eq!(and.count_ones(), 1);
    let or = b.clone().bitor(c.clone());
    assert_eq!(or.count_ones(), 3);
    let xor = b.clone().bitxor(c.clone());
    assert_eq!(xor.count_ones(), 2);
    let mut d = b.clone();
    d.bitor_assign(c.clone());
    assert!(d.get(5) && d.get(64) && d.get(127));
    d.bitand_assign(c.clone());
    assert!(d.get(5) && d.get(64) && !d.get(127));
    d.bitxor_assign(c);
    assert_eq!(d.count_ones(), 0);
}

#[test]
fn deletable_heap_pops_largest_live() {
    let mut h = DeletableBinaryHeap::<i64>::new();
    assert_eq!(h.pop(), None);
    for v in [5, 1, 9, 3, 9, 7] {
        h.push(v);
    }
    assert_eq!(h.peek(), Some(&9));
    h.remove(&9);
    assert_eq!(h.pop(), Some(9));
    h.remove(&7);
    assert_eq!(h.pop(), Some(5));
    assert_eq!(h.pop(), Some(3));
    assert_eq!(h.peek(), Some(&1));
    assert_eq!(h.pop(), Some(1));
    assert_eq!(h.pop(), None);
}

#[test]
fn auto_sort_vec_ranks() {
    let mut v = AutoSortVec::new(10);
    for x in [4, 1, 7, 4, 10] {
        v.push(x);
    }
    assert_eq!(v.len(), 5);
    assert_eq!(v.at(0), 1);
    assert_eq!(v.at(1), 4);
    assert_eq!(v.at(2), 4);
    assert_eq!(v.at(3), 7);
    assert_eq!(v.at(4), 10);
    assert_eq!(v.value_to_index(4), 1);
    assert_eq!(v.value_to_index(5), 3);
    assert_eq!(v.value_to_index(0), 0);
    v.remove_value(4);
    assert_eq!(v.len(), 4);
    assert_eq!(v.at(2), 7);
}

#[test]
fn btree_map_nearest_keys() {
    let mut m = std::collections::BTreeMap::new();
    m.insert(1i64, "a");
    m.insert(4i64, "b");
    m.insert(9i64, "c");
    assert_eq!(m.greater_equal(&4), Some((&4, &"b")));
    assert_eq!(m.greater_than(&4), Some((&9, &"c")));
    assert_eq!(m.less_equal(&4), Some((&4, &"b")));
    assert_eq!(m.less_than(&4), Some((&1, &"a")));
    assert_eq!(m.greater_equal(&10), None);
    assert_eq!(m.less_than(&1), None);
    assert_eq!(m.greater_than(&-5), Some((&1, &"a")));
    assert_eq!(m.less_equal(&100), Some((&9, &"c")));
}

#[test]
fn btree_set_nearest_elements() {
    let s: std::collections::BTreeSet<i64> = [-3i64, 0, 7].into_iter().collect();
    assert_eq!(s.greater_equal(&0), Some(&0));
    assert_eq!(s.greater_than(&0), Some(&7));
    assert_eq!(s.less_equal(&6), Some(&0));
    assert_eq!(s.less_than(&-3), None);
    assert_eq!(s.greater_than(&7), None);
    let empty: std::collections::BTreeSet<i64> = std::collections::BTreeSet::new();
    assert_eq!(empty.less_equal(&0), None);
}

#[test]
fn segment_tree_2d_cells_with_any_initial_value() {
    let mut seg = SegmentTree2D::<i64, SumI64>::new(2, 3, SumI64, 7);
    assert_eq!(seg.get(1, 2), 7);
    seg.set(0, 1, -2);
    seg.add(1, 2, 3);
    assert_eq!(seg.get(0, 1), -2);
    assert_eq!(seg.get(1, 2), 10);
    assert_eq!(seg.get(0, 0), 7);
}

#[test]
fn segment_tree_2d_query_after_writing_every_cell() {
    let mut seg = SegmentTree2D::<i64, SumI64>::new(3, 2, SumI64, 7);
    for y in 0..3 {
        for x in 0..2 {
            seg.set(y, x, (y * 2 + x) as i64);
        }
    }
    assert_eq!(seg.query(0, 2, 0, 1), 15);
    assert_eq!(seg.query(1, 2, 1, 1), 3 + 5);
}
