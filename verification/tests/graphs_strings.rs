use procon_lib::suffix_array::{construct_sa, ToSuffixArray};
use procon_lib::grid_util::{AddHeader, MoveDelta, Transpose};
use procon_lib::matrix::Matrix;
use procon_lib::mo::{isqrt, Mo};
use procon_lib::modint::ModInt;
use procon_lib::my_string::Str;
use procon_lib::ordering::{insert_sorted, reverse_vec, sort_vec};
use procon_lib::permutation::{IntoPermutations, PermutationIterator};
use procon_lib::rooted_tree::RootedTree;
use procon_lib::sort_vec_binary_search::{sorted_binary_search, SortVecBinarySearch};
use procon_lib::strongly_connected_component::StronglyConnectedComponent;
use procon_lib::z_algo::z_algo;

type Mint = ModInt<1000000007>;

#[test]
fn rooted_tree_lca_distance_stepback() {
    let mut t = RootedTree::new(7, 0);
    t.unite(0, 1);
    t.unite(0, 2);
    t.unite(1, 3);
    t.unite(1, 4);
    t.unite(2, 5);
    t.unite(5, 6);
    assert_eq!(t.lca(3, 4), 1);
    assert_eq!(t.lca(4, 3), 1);
    assert_eq!(t.lca(3, 6), 0);
    assert_eq!(t.lca(5, 6), 5);
    assert_eq!(t.lca(6, 6), 6);
    assert_eq!(t.distance(3, 6), 5);
    assert_eq!(t.distance(3, 4), 2);
    assert_eq!(t.distance(0, 0), 0);
    assert_eq!(t.stepback(6, 0), 6);
    assert_eq!(t.stepback(6, 1), 5);
    assert_eq!(t.stepback(6, 2), 2);
    assert_eq!(t.stepback(6, 3), 0);
}

#[test]
fn rooted_tree_weighted_distance() {
    let mut t = RootedTree::new(4, 2);
    t.unite_with_distance(0, 1, 10);
    t.unite_with_distance(1, 2, 3);
    t.unite_with_distance(2, 3, 7);
    assert_eq!(t.lca(0, 3), 2);
    assert_eq!(t.distance(0, 3), 20);
    assert_eq!(t.distance(0, 1), 10);
    assert_eq!(t.graph[1], vec![(10, 0), (3, 2)]);
}

#[test]
fn scc_decomposition_in_topological_order() {
    let mut scc = StronglyConnectedComponent::new(6);
    scc.add(0, 1);
    scc.add(1, 2);
    scc.add(2, 0);
    scc.add(2, 3);
    scc.add(3, 4);
    scc.add(4, 3);
    let groups = scc.decompose();
    assert_eq!(groups, vec![vec![5], vec![0, 2, 1], vec![3, 4]]);
    assert_eq!(scc.graph[2], vec![0, 3]);
}

#[test]
fn matrix_fibonacci_power() {
    let mut m = Matrix::<1000000007>::new(2, 2);
    m.set(0, 0, Mint::new(1));
    m.set(0, 1, Mint::new(1));
    m.set(1, 0, Mint::new(1));
    let p = m.pow(10);
    assert_eq!(p.get(0, 1).val(), 55);
    assert_eq!(p.get(0, 0).val(), 89);
    let id = Matrix::<1000000007>::identity(2, 2);
    let same = m.duplicate().mul(id);
    assert_eq!(same.get(0, 0).val(), 1);
    assert_eq!(same.get(1, 1).val(), 0);
    let twice = m.duplicate().add(m.duplicate());
    assert_eq!(twice.get(1, 0).val(), 2);
    let v = m.mul_vec(vec![Mint::new(3), Mint::new(4)]);
    assert_eq!((v[0].val(), v[1].val()), (7, 3));
    let p0 = Matrix::<1000000007>::new(3, 3).pow(0);
    assert_eq!(p0.get(2, 2).val(), 1);
}

#[test]
fn mo_orders_by_block_and_snake() {
    let mut mo = Mo::new();
    mo.add_range_queue(0, 3);
    mo.add_range_queue(1, 5);
    mo.add_range_queue(4, 9);
    mo.add_range_queue(2, 2);
    let mut it = mo.into_iter();
    let mut got = vec![];
    while let Some(x) = it.next() {
        got.push(x);
    }
    assert_eq!(got, vec![(3, (2, 2)), (0, (0, 3)), (1, (1, 5)), (2, (4, 9))]);
    assert_eq!(Mo::add_chain(3, 5, 1, 7), vec![2, 1, 6, 7]);
    assert_eq!(Mo::remove_chain(1, 7, 3, 5), vec![1, 2, 7, 6]);
    assert_eq!(isqrt(0), 0);
    assert_eq!(isqrt(15), 3);
    assert_eq!(isqrt(16), 4);
    assert_eq!(isqrt(1000000), 1000);
}

#[test]
fn z_algorithm_prefix_matches() {
    assert_eq!(z_algo(&[0, 0, 1, 0, 0, 1, 0]), vec![7, 1, 0, 4, 1, 0, 1]);
    assert_eq!(z_algo(&[5]), vec![1]);
    assert_eq!(z_algo(&[2, 2, 2]), vec![3, 2, 1]);
}

#[test]
fn string_operations() {
    let s = Str::from("abcabc");
    assert_eq!(s.len(), 6);
    assert_eq!(s.find(&Str::from("bc")), Some(1));
    assert_eq!(s.rfind(&Str::from("bc")), Some(4));
    assert_eq!(s.find(&Str::from("cb")), None);
    assert_eq!(s.find(&Str::new()), Some(0));
    assert_eq!(s.rfind(&Str::new()), Some(6));
    assert_eq!(s.first(), Some(&'a'));
    assert_eq!(s.last(), Some(&'c'));
    assert_eq!(s.get(2), 'c');
    let mut t = Str::from("dcba");
    t.sort();
    assert_eq!(t.get(0), 'a');
    t.reverse();
    assert_eq!(t.get(0), 'd');
    t.swap(0, 3);
    assert_eq!((t.get(0), t.get(3)), ('a', 'd'));
    t.set(1, 'z');
    assert_eq!(t.get(1), 'z');
    assert_eq!(t.remove(1), 'z');
    assert_eq!(t.len(), 3);
    t.push('q');
    t.push_str("rs");
    assert_eq!(t.pop(), Some('s'));
    let u = t.concat(Str::from("xy")).with_char('w');
    assert_eq!(u.len(), 8);
    assert_eq!(u.last(), Some(&'w'));
    let mut v = Str::from("ab");
    v.append(Str::from("c"));
    assert_eq!(v.into_values('a'), vec![0, 1, 2]);
    let mut e = Str::from("x");
    e.clear();
    assert!(e.is_empty());
    assert_eq!(e.pop(), None);
    assert_eq!(Str::from("hi").iter().count(), 2);
    assert_eq!(Str::from("hi").into_iter().collect::<String>(), "hi");
}

#[test]
fn permutations_in_lexical_order() {
    let mut it = PermutationIterator::new(vec![3, 1, 2]);
    let mut all = vec![];
    while let Some(p) = it.next() {
        all.push(p);
    }
    assert_eq!(
        all,
        vec![vec![1, 2, 3], vec![1, 3, 2], vec![2, 1, 3], vec![2, 3, 1], vec![3, 1, 2], vec![3, 2, 1]]
    );
    let mut dup = vec![1i64, 1, 2].into_permutations();
    let mut count = 0;
    while dup.next().is_some() {
        count += 1;
    }
    assert_eq!(count, 3);
}

#[test]
fn grid_helpers() {
    assert_eq!(3usize.move_delta(-1, 0, 4), Some(2));
    assert_eq!(0usize.move_delta(-1, 0, 4), None);
    assert_eq!(4usize.move_delta(1, 0, 4), None);
    assert_eq!(2usize.move_delta(2, 1, 4), Some(4));
    let t = vec![vec![1, 2, 3], vec![4, 5, 6]].transpose();
    assert_eq!(t, vec![vec![1, 4], vec![2, 5], vec![3, 6]]);
    let mut h = vec![7, 8];
    h.add_header(6);
    assert_eq!(h, vec![6, 7, 8]);
}

#[test]
fn sorted_vec_neighbours() {
    let v: Vec<i64> = vec![1, 3, 3, 5, 9];
    assert_eq!(v.greater_equal(&3), Some((1, &3)));
    assert_eq!(v.greater_than(&3), Some((3, &5)));
    assert_eq!(v.less_equal(&3), Some((2, &3)));
    assert_eq!(v.less_than(&3), Some((0, &1)));
    assert_eq!(v.greater_than(&9), None);
    assert_eq!(v.less_than(&1), None);
    assert_eq!(v.less_equal(&100), Some((4, &9)));
}

#[test]
fn ordering_helpers() {
    let mut v: Vec<i64> = vec![5, -1, 3, 3, 0];
    sort_vec(&mut v);
    assert_eq!(v, vec![-1, 0, 3, 3, 5]);
    insert_sorted(&mut v, 4);
    assert_eq!(v, vec![-1, 0, 3, 3, 4, 5]);
    reverse_vec(&mut v);
    assert_eq!(v, vec![5, 4, 3, 3, 0, -1]);
}

#[test]
fn suffix_array_examples() {
    assert_eq!(vec![1usize, 2, 1, 2, 1].to_suffix_array(), vec![4, 2, 0, 3, 1]);
    assert_eq!(vec![3usize, 3, 3].to_suffix_array(), vec![2, 1, 0]);
    assert_eq!(vec![5usize].to_suffix_array(), vec![0]);
    assert_eq!(Vec::<usize>::new().to_suffix_array(), Vec::<usize>::new());
    assert_eq!(vec![0usize, 1, 0, 0, 2, 1].to_suffix_array(), vec![2, 0, 3, 5, 1, 4]);
    let banana: Vec<usize> = "banana".bytes().map(|b| b as usize).collect();
    assert_eq!(banana.to_suffix_array(), vec![5, 3, 1, 0, 4, 2]);
}

#[test]
fn suffix_array_sorts_suffixes() {
    let s: Vec<usize> = vec![2, 7, 1, 8, 2, 8, 1, 8, 2, 8, 4, 5, 9, 0, 4, 5, 2, 3, 5, 3, 6];
    let sa = s.to_suffix_array();
    let mut expected: Vec<usize> = (0..s.len()).collect();
    expected.sort_by(|&a, &b| s[a..].cmp(&s[b..]));
    assert_eq!(sa, expected);
}

#[test]
fn construct_sa_direct() {
    assert_eq!(construct_sa(&vec![1, 2, 1, 2, 1]), vec![4, 2, 0, 3, 1]);
    assert_eq!(construct_sa(&vec![]), Vec::<usize>::new());
}

#[test]
fn sorted_binary_search_direct() {
    let v: Vec<i64> = vec![1, 3, 3, 5];
    assert_eq!(sorted_binary_search(&v, &3, false), (Some((0, &1)), Some((1, &3))));
    assert_eq!(sorted_binary_search(&v, &3, true), (Some((2, &3)), Some((3, &5))));
    assert_eq!(sorted_binary_search(&v, &0, false), (None, Some((0, &1))));
    assert_eq!(sorted_binary_search(&v, &9, true), (Some((3, &5)), None));
}
