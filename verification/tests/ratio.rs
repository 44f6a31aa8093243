use max_product::{Ratio, Scalar};

fn ratio(num: u32, den: u32) -> Ratio {
    Ratio::from_digits(&[num], &[den]).unwrap()
}

fn same(a: &Ratio, b: &Ratio) -> bool {
    !a.less(b) && !b.less(a)
}

#[test]
fn zero_denominator_is_refused() {
    assert!(Ratio::from_digits(&[1], &[]).is_none());
    assert!(Ratio::from_digits(&[1], &[0]).is_none());
    assert!(Ratio::from_digits(&[], &[0, 0, 0]).is_none());
    assert!(Ratio::from_digits(&[1], &[0, 1]).is_some());
}

#[test]
fn digits_come_back_without_leading_zeros() {
    let q = Ratio::from_digits(&[5, 0, 0], &[7, 9, 0]).unwrap();
    assert_eq!(q.numerator_digits(), vec![5]);
    assert_eq!(q.denominator_digits(), vec![7, 9]);
    let zero = Ratio::from_digits(&[0, 0], &[1]).unwrap();
    assert_eq!(zero.numerator_digits(), Vec::<u32>::new());
}

#[test]
fn products_multiply_numerators_and_denominators() {
    let p = ratio(3, 4).times(&ratio(5, 7));
    assert_eq!(p.numerator_digits(), vec![15]);
    assert_eq!(p.denominator_digits(), vec![28]);

    // (2^32 - 1)^2 = 2^64 - 2^33 + 1 takes two digits.
    let big = ratio(u32::MAX, 1);
    let square = big.times(&big);
    assert_eq!(square.numerator_digits(), vec![1, 0xffff_fffe]);
    assert_eq!(square.denominator_digits(), vec![1]);

    // Fractions are not brought to lowest terms.
    let p = ratio(2, 4).times(&ratio(2, 1));
    assert_eq!(p.numerator_digits(), vec![4]);
    assert_eq!(p.denominator_digits(), vec![4]);
    assert!(same(&p, &ratio(1, 1)));
}

#[test]
fn order_is_that_of_the_values() {
    assert!(ratio(1, 3).less(&ratio(1, 2)));
    assert!(!ratio(1, 2).less(&ratio(1, 3)));
    assert!(!ratio(2, 4).less(&ratio(1, 2)));
    assert!(!ratio(1, 2).less(&ratio(2, 4)));
    assert!(ratio(0, 5).less(&ratio(1, 1000)));
    assert!(!ratio(0, 5).less(&ratio(0, 9)));
    // Sizes close together: the cross products decide.
    assert!(ratio(1000, 1001).less(&ratio(1001, 1002)));
    assert!(!ratio(1001, 1002).less(&ratio(1000, 1001)));
    assert!(ratio(7, 8).less(&ratio(8, 9)));
}

#[test]
fn order_of_far_apart_sizes() {
    let small = ratio(1, u32::MAX);
    let large = ratio(u32::MAX, 1);
    assert!(small.less(&large));
    assert!(!large.less(&small));
    assert!(ratio(0, 1).less(&large));
    assert!(!large.less(&ratio(0, 1)));
    assert!(!small.less(&ratio(0, 7)));
    let huge = Ratio::from_digits(&[0, 0, 0, 1], &[3]).unwrap();
    assert!(large.less(&huge));
    assert!(!huge.less(&large));
    let tiny = Ratio::from_digits(&[3], &[0, 0, 0, 1]).unwrap();
    assert!(tiny.less(&small));
    assert!(!small.less(&tiny));
}

#[test]
fn identities_and_copies() {
    let zero = <Ratio as Scalar>::zero();
    let one = <Ratio as Scalar>::one();
    assert!(same(&zero, &ratio(0, 3)));
    assert!(same(&one, &ratio(3, 3)));
    assert!(zero.less(&one));
    let q = ratio(22, 7);
    assert!(same(&q.times(&one), &q));
    assert!(same(&q.times(&zero), &zero));
    let copy = q.dup();
    assert_eq!(copy.numerator_digits(), vec![22]);
    assert_eq!(copy.denominator_digits(), vec![7]);
}
