use procon_lib::change_min_max::ChangeMinMax;
use procon_lib::combinatorics::{combination, factorial, factorial_inv, permutation};
use procon_lib::gcd::{chinese_rem, ext_gcd, gcd};
use procon_lib::modint::{DynModInt, ModInt};
use procon_lib::rational::Rational;

type Mint = ModInt<1000000007>;

#[test]
fn chmin_chmax_report_change() {
    let mut a: i64 = 5;
    assert!(a.chmin(3));
    assert_eq!(a, 3);
    assert!(!a.chmin(3));
    assert!(!a.chmin(7));
    assert!(a.chmax(10));
    assert_eq!(a, 10);
    assert!(!a.chmax(10));

    let mut o: Option<i64> = None;
    assert!(o.chmin(4));
    assert_eq!(o, Some(4));
    assert!(!o.chmin(9));
    assert!(o.chmin(-1));
    assert_eq!(o, Some(-1));

    let mut ou: Option<usize> = None;
    assert!(ou.chmax(2));
    assert!(ou.chmax(8));
    assert!(!ou.chmax(1));
    assert_eq!(ou, Some(8));

    let mut p: (usize, usize) = (2, 5);
    assert!(p.chmin((2, 3)));
    assert_eq!(p, (2, 3));
    assert!(!p.chmin((3, 0)));
}

#[test]
fn gcd_values() {
    assert_eq!(gcd(12, 18), 6);
    assert_eq!(gcd(18, 12), 6);
    assert_eq!(gcd(7, 0), 7);
    assert_eq!(gcd(0, 7), 7);
    assert_eq!(gcd(0, 0), 0);
    assert_eq!(gcd(17, 5), 1);
}

#[test]
fn ext_gcd_bezout() {
    for a in 0i64..40 {
        for b in 0i64..40 {
            let (p, q) = ext_gcd(a, b);
            assert_eq!((a * p + b * q) as u64, gcd(a as u64, b as u64));
        }
    }
    assert_eq!(ext_gcd(0, 5), (0, 1));
    let (p, q) = ext_gcd(240, 46);
    assert_eq!(240 * p + 46 * q, 2);
}

#[test]
fn modint_arithmetic() {
    let a = Mint::new(-1);
    assert_eq!(a.val(), 1000000006);
    let b = Mint::new(1000000008);
    assert_eq!(b.val(), 1);
    assert_eq!(a.add(b).val(), 0);
    assert_eq!(Mint::new(3).sub(Mint::new(5)).val(), 1000000005);
    assert_eq!(Mint::new(123456789).mul(Mint::new(987654321)).val(), 259106859);
    assert_eq!(Mint::new(2).pow(10).val(), 1024);
    assert_eq!(Mint::new(2).pow(0).val(), 1);
    let inv3 = Mint::new(3).inverse();
    assert_eq!(inv3.mul(Mint::new(3)).val(), 1);
    assert_eq!(Mint::new(10).div(Mint::new(5)).val(), 2);
    assert!(Mint::zero().is_zero());
    assert_eq!(Mint::one().val(), 1);
    let mut c = Mint::new(4);
    c.add_assign(Mint::new(6));
    c.mul_assign(Mint::new(3));
    c.sub_assign(Mint::new(1));
    assert_eq!(c.val(), 29);
    c.div_assign(Mint::new(29));
    assert_eq!(c.val(), 1);
    assert_eq!(Mint::from_usize(1000000010).into_usize(), 3);
    assert_eq!(Mint::from_i64(-2).val(), 1000000005);
    assert_eq!(Mint::from_i32(-1).val(), 1000000006);
}

#[test]
fn dyn_modint_arithmetic() {
    let a = DynModInt::new(-3, 7);
    assert_eq!(a.val(), 4);
    assert_eq!(a.get_mod(), 7);
    assert_eq!(a.add(DynModInt::new(5, 7)).val(), 2);
    assert_eq!(a.mul(DynModInt::new(5, 7)).val(), 6);
    assert_eq!(a.inverse().val(), 2);
    assert_eq!(DynModInt::new(3, 7).pow(6).val(), 1);
    assert_eq!(DynModInt::new(6, 7).div(DynModInt::new(3, 7)).val(), 2);
}

#[test]
fn factorials_and_binomials() {
    assert_eq!(factorial::<1000000007>(0).val(), 1);
    assert_eq!(factorial::<1000000007>(5).val(), 120);
    assert_eq!(factorial::<1000000007>(20).val(), 146326063);
    assert_eq!(factorial_inv::<1000000007>(5).mul(Mint::new(120)).val(), 1);
    assert_eq!(combination::<1000000007>(5, 2).val(), 10);
    assert_eq!(combination::<1000000007>(10, 3).val(), 120);
    assert_eq!(combination::<1000000007>(3, 5).val(), 0);
    assert_eq!(combination::<1000000007>(7, 0).val(), 1);
    assert_eq!(combination::<1000000007>(7, 1).val(), 7);
    assert_eq!(permutation::<1000000007>(5, 2).val(), 20);
    assert_eq!(permutation::<1000000007>(6, 3).val(), 120);
    assert_eq!(permutation::<1000000007>(6, 0).val(), 1);
}

#[test]
fn rational_normalizes() {
    let r = Rational::new(6, -4);
    assert_eq!((r.num, r.denom), (-3, 2));
    let z = Rational::new(0, -5);
    assert_eq!((z.num, z.denom), (0, 1));
    let inf = Rational::new(-3, 0);
    assert_eq!((inf.num, inf.denom), (1, 0));
    let s = Rational::new(1, 2).add(Rational::new(1, 3));
    assert_eq!((s.num, s.denom), (5, 6));
    let d = Rational::new(1, 2).sub(Rational::new(1, 3));
    assert_eq!((d.num, d.denom), (1, 6));
    let m = Rational::new(2, 3).mul(Rational::new(9, 4));
    assert_eq!((m.num, m.denom), (3, 2));
    let q = Rational::new(2, 3).div(Rational::new(4, 9));
    assert_eq!((q.num, q.denom), (3, 2));
    let n = Rational::new(2, 3).neg();
    assert_eq!((n.num, n.denom), (-2, 3));
    assert!(Rational::new(1, 3).lt(&Rational::new(1, 2)));
    assert!(!Rational::new(1, 2).lt(&Rational::new(2, 4)));
    assert!(Rational::new(-1, 2).lt(&Rational::new(0, 1)));
}

#[test]
fn chinese_rem_compatible() {
    assert_eq!(chinese_rem(&[3, 5], &[2, 3]), Some((15, 8)));
    assert_eq!(chinese_rem(&[4, 6], &[3, 5]), Some((12, 11)));
    assert_eq!(chinese_rem(&[7], &[-1]), Some((7, 6)));
    assert_eq!(chinese_rem(&[], &[]), Some((1, 0)));
}

#[test]
fn chinese_rem_incompatible() {
    assert_eq!(chinese_rem(&[4, 6], &[1, 2]), None);
    assert_eq!(chinese_rem(&[2, 3, 4], &[1, 2, 2]), None);
}

#[test]
fn modint_largest_modulus() {
    type Big = ModInt<3037000500>;
    let a = Big::new(3037000499);
    assert_eq!(a.mul(a).val(), 1);
    assert_eq!(a.pow(3).val(), 3037000499);
}

#[test]
fn chinese_rem_many_equal_moduli() {
    let mods = vec![2i64; 63];
    let rems = vec![1i64; 63];
    assert_eq!(chinese_rem(&mods, &rems), Some((2, 1)));
}
