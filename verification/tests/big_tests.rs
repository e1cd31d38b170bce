use ndcell::big::BigNum;
use ndcell::index::{decode, encode};
use ndcell::ndvec::BigVec;

fn n(x: i64) -> BigNum {
    BigNum::from_i64(x)
}

#[test]
fn round_trip_through_machine_integers() {
    for x in [0i64, 1, -1, 127, 128, -128, -129, 255, 256, i64::MAX, i64::MIN] {
        assert_eq!(n(x).to_i64(), Some(x));
    }
    assert_eq!(BigNum::from_u64(u64::MAX).to_i64(), None);
    assert_eq!(BigNum::from_usize(77).to_i64(), Some(77));
    assert_eq!(BigNum::zero().to_i64(), Some(0));
    assert_eq!(BigNum::zero(), n(0));
}

#[test]
fn bytes_are_twos_complement_little_endian() {
    assert_eq!(n(-1125).bytes, vec![155, 251]);
    assert_eq!(n(255).bytes, vec![255, 0]);
    assert_eq!(n(-1).bytes, vec![255]);
}

#[test]
fn sums_and_differences() {
    assert_eq!(n(5).add(&n(-8)).to_i64(), Some(-3));
    assert_eq!(n(5).sub(&n(-8)).to_i64(), Some(13));
    assert_eq!(n(i64::MAX).add(&n(1)).to_i64(), None);
    assert_eq!(n(i64::MAX).add(&n(1)).sub(&n(1)).to_i64(), Some(i64::MAX));
}

#[test]
fn powers_of_two_and_shifts() {
    assert_eq!(BigNum::pow2(0).to_i64(), Some(1));
    assert_eq!(BigNum::pow2(10).to_i64(), Some(1024));
    assert_eq!(BigNum::pow2(62).to_i64(), Some(1 << 62));
    assert_eq!(BigNum::pow2(100).shr(90).to_i64(), Some(1024));
    assert_eq!(n(3).shl(4).to_i64(), Some(48));
    assert_eq!(n(-3).shl(2).to_i64(), Some(-12));
    assert_eq!(n(7).shr(1).to_i64(), Some(3));
    assert_eq!(n(-7).shr(1).to_i64(), Some(-4));
    assert_eq!(n(-1).shr(5).to_i64(), Some(-1));
}

#[test]
fn comparisons() {
    assert!(n(-3).lt(&n(2)));
    assert!(!n(2).lt(&n(2)));
    assert!(n(2).le(&n(2)));
    assert!(!n(3).le(&n(2)));
    assert!(n(2).equals(&n(2)));
    assert!(!n(2).equals(&n(-2)));
    assert!(n(0).is_zero());
    assert!(!n(1).is_zero());
    assert!(n(1).is_positive());
    assert!(!n(0).is_positive());
    assert!(n(-1).is_negative());
    assert!(!n(0).is_negative());
}

#[test]
fn binary_digits() {
    let x = n(0b1011_0100);
    let digits: Vec<bool> = (0..9).map(|i| x.bit(i)).collect();
    assert_eq!(digits, vec![false, false, true, false, true, true, false, true, false]);
    assert_eq!(n(0).bits(), 0);
    assert_eq!(n(1).bits(), 1);
    assert_eq!(n(255).bits(), 8);
    assert_eq!(n(256).bits(), 9);
    assert_eq!(BigNum::pow2(200).bits(), 201);
}

#[test]
fn copies_are_equal() {
    let x = BigNum::pow2(70).sub(&n(3));
    assert_eq!(x.copy(), x);
    assert!(x.copy().equals(&x));
}

#[test]
fn vectors_add_and_subtract() {
    let a = BigVec::<3>::from_i64([1, -2, 3]);
    let b = BigVec::<3>::from_i64([10, 20, -30]);
    assert_eq!(a.add(&b).to_i64(), Some(vec![11, 18, -27]));
    assert_eq!(a.sub(&b).to_i64(), Some(vec![-9, -22, 33]));
    assert_eq!(a.add_scalar(&n(5)).to_i64(), Some(vec![6, 3, 8]));
    assert_eq!(a.sub_scalar(&n(5)).to_i64(), Some(vec![-4, -7, -2]));
    assert_eq!(a.copy().to_i64(), Some(vec![1, -2, 3]));
    assert_eq!(BigVec::<2>::origin().to_i64(), Some(vec![0, 0]));
    assert_eq!(BigVec::<2>::repeat(&n(-1)).to_i64(), Some(vec![-1, -1]));
}

#[test]
fn vector_too_large_for_machine_integers() {
    let far = BigVec::<2> { coords: vec![n(1), BigNum::pow2(80)] };
    assert_eq!(far.to_i64(), None);
}

#[test]
fn vector_in_cube() {
    assert!(BigVec::<2>::from_i64([0, 7]).in_cube(3));
    assert!(!BigVec::<2>::from_i64([0, 8]).in_cube(3));
    assert!(!BigVec::<2>::from_i64([-1, 3]).in_cube(3));
}

#[test]
fn flat_indices_have_lowest_axis_fastest() {
    assert_eq!(encode(&vec![1, 0, 2], 3), 19);
    assert_eq!(decode(19, 3, 3), vec![1, 0, 2]);
    assert_eq!(encode(&vec![1, 1], 2), 3);
    assert_eq!(decode(2, 2, 2), vec![0, 1]);
    for i in 0..64 {
        assert_eq!(encode(&decode(i, 4, 3), 4), i);
    }
}
