use procon_lib::xor_basis::xor_basis;
use procon_lib::coordinate_compress::CoordinateCompress;
use procon_lib::integer_operation::IntegerOperation;
use procon_lib::map_counter::MapCounter;
use procon_lib::rolling_hash::{GenRollingHash, RollingHash, MOD0, MOD1};
use std::collections::{BTreeMap, HashMap};

fn window_hash(v: &[usize], base: u64, md: u64) -> u64 {
    let mut h = 0u64;
    let mut p = 1u64;
    for &x in v {
        h = (h + (x as u64 % md) * p) % md;
        p = p * base % md;
    }
    h
}

#[test]
fn rolling_hash_of_ranges() {
    let values = vec![3usize, 1, 4, 1, 5, 9, 2, 6, 5, 3, 5];
    let base = 131usize;
    let rh = RollingHash::new(&values, base);
    for i0 in 0..values.len() {
        for i1 in i0..values.len() {
            let (h0, h1) = rh.hash(i0, i1).get();
            assert_eq!(h0, window_hash(&values[i0..=i1], base as u64, MOD0));
            assert_eq!(h1, window_hash(&values[i0..=i1], base as u64, MOD1));
        }
    }
    // equal contents give equal hashes: [5, 3, 5] never repeats, [1] does
    assert!(rh.hash(1, 1).eq(&rh.hash(3, 3)));
    assert!(rh.hash(4, 4).eq(&rh.hash(8, 8)));
    assert!(!rh.hash(0, 1).eq(&rh.hash(1, 2)));
    let rh2 = values.rolling_hash(base);
    assert_eq!(rh2.hash(2, 5).get(), rh.hash(2, 5).get());
}

#[test]
fn map_counter_counts() {
    let mut m: BTreeMap<u64, usize> = BTreeMap::new();
    m.incr(5);
    m.incr(5);
    m.incr_by(7, 3);
    assert_eq!(m.get(&5), Some(&2));
    assert_eq!(m.get(&7), Some(&3));
    m.decr(&5);
    assert_eq!(m.get(&5), Some(&1));
    m.decr(&5);
    assert_eq!(m.get(&5), None);
    m.decr_by(&7, 3);
    assert!(m.is_empty());
    let mut h: HashMap<u64, usize> = HashMap::new();
    h.incr(1);
    h.incr_by(1, 4);
    h.decr_by(&1, 2);
    assert_eq!(h.get(&1), Some(&3));
    h.decr_by(&1, 3);
    assert!(h.is_empty());
}

#[test]
fn primes_and_divisors() {
    let p = 360u64.into_primes();
    assert_eq!(p.into_iter().collect::<Vec<_>>(), vec![(2, 3), (3, 2), (5, 1)]);
    let q = 97u64.into_primes();
    assert_eq!(q.into_iter().collect::<Vec<_>>(), vec![(97, 1)]);
    assert!(1u64.into_primes().is_empty());
    let big = 600851475143u64.into_primes();
    assert_eq!(big.into_iter().collect::<Vec<_>>(), vec![(71, 1), (839, 1), (1471, 1), (6857, 1)]);
    assert_eq!(36u64.into_divisors(), vec![1, 2, 3, 4, 6, 9, 12, 18, 36]);
    assert_eq!(1u64.into_divisors(), vec![1]);
    assert_eq!(13u64.into_divisors(), vec![1, 13]);
    assert_eq!(3u64.squared_length(4), 25);
}

#[test]
fn coordinates_compress_to_ranks() {
    let v: Vec<i64> = vec![30, -5, 30, 7, 100, -5];
    assert_eq!(v.compress_decoder(), vec![-5, 7, 30, 100]);
    let enc = v.compress_encoder();
    assert_eq!(enc.len(), 4);
    assert_eq!(enc[&-5], 0);
    assert_eq!(enc[&7], 1);
    assert_eq!(enc[&30], 2);
    assert_eq!(enc[&100], 3);
    assert_eq!(v.compress(), vec![2, 0, 2, 1, 3, 0]);
    let e: Vec<i64> = vec![];
    assert!(e.compress_decoder().is_empty());
}

#[test]
fn xor_basis_examples() {
    assert_eq!(xor_basis(&[1, 2, 3]), vec![1, 2]);
    assert_eq!(xor_basis(&[5, 3, 6]), vec![3, 5]);
    assert_eq!(xor_basis(&[0, 0]), Vec::<usize>::new());
    assert_eq!(xor_basis(&[]), Vec::<usize>::new());
    assert_eq!(xor_basis(&[7, 7, 7]), vec![7]);
    assert_eq!(xor_basis(&[8, 12, 6, 3]), vec![1, 2, 4, 8]);
    assert_eq!(xor_basis(&[1023, 512, 511]), vec![511, 512]);
}

#[test]
fn xor_basis_is_reduced() {
    let b = xor_basis(&[37, 91, 12, 64, 5, 91, 200, 3]);
    for (i, &x) in b.iter().enumerate() {
        assert!(x > 0);
        let top = usize::BITS - 1 - x.leading_zeros();
        for (j, &y) in b.iter().enumerate() {
            if i != j {
                assert_eq!((y >> top) & 1, 0);
            }
        }
    }
    assert!(b.windows(2).all(|w| w[0] < w[1]));
}
