use max_product::{
    max_prod_brute_force, max_prod_brute_force_improved, max_prod_fast_int, prod, Scalar,
};
use rand::distributions::uniform::Uniform;
use rand::distributions::Distribution;
use rand::{thread_rng, Rng};

#[test]
fn test_random_int() {
    for _ in 0..500 {
        let mut a: Vec<u128> =
            thread_rng().sample_iter(Uniform::new_inclusive(0, 10)).take(50).collect();

        let n = a.len();
        a[Uniform::new(0, n).sample(&mut thread_rng())] = 0;

        assert_eq!(max_prod_fast_int(&a), max_prod_brute_force(&a));
        assert_eq!(max_prod_fast_int(&a), max_prod_brute_force_improved(&a));
    }
}

#[test]
fn test_brute_force_basic() {
    let a = vec![1u32, 2, 3, 4];
    let max = max_prod_fast_int(&a);
    assert_eq!(max, (0, 3));
    assert_eq!(max_prod_fast_int(&a), max_prod_brute_force(&a));
    assert_eq!(max_prod_fast_int(&a), max_prod_brute_force_improved(&a));
}

#[test]
fn test_brute_force_basic2() {
    let a = vec![0u32, 2, 3, 4];
    let max = max_prod_fast_int(&a);
    assert_eq!(max, (1, 3));
    assert_eq!(max_prod_fast_int(&a), max_prod_brute_force(&a));
    assert_eq!(max_prod_fast_int(&a), max_prod_brute_force_improved(&a));
}

#[test]
fn test_brute_force_basic3() {
    let a = vec![0, 1u32, 0, 0];
    let max = max_prod_fast_int(&a);
    assert_eq!(max, (1, 1));
    assert_eq!(max_prod_fast_int(&a), max_prod_brute_force(&a));
    assert_eq!(max_prod_fast_int(&a), max_prod_brute_force_improved(&a));
}

#[test]
fn test_brute_force_basic4() {
    let a = vec![0, 1u32, 0, 1];
    let max = max_prod_fast_int(&a);
    assert_eq!(max, (1, 1));
    assert_eq!(max_prod_fast_int(&a), max_prod_brute_force(&a));
    assert_eq!(max_prod_fast_int(&a), max_prod_brute_force_improved(&a));
}

#[test]
fn test_brute_force_basic5() {
    let a = vec![0, 1u32, 0, 7, 0, 3];
    let max = max_prod_fast_int(&a);
    assert_eq!(max, (3, 3));
    assert_eq!(max_prod_fast_int(&a), max_prod_brute_force(&a));
    assert_eq!(max_prod_fast_int(&a), max_prod_brute_force_improved(&a));
}

#[test]
fn test_brute_force_basic6() {
    let a = vec![4u32];
    let max = max_prod_fast_int(&a);
    assert_eq!(max, (0, 0));
    assert_eq!(max_prod_fast_int(&a), max_prod_brute_force(&a));
    assert_eq!(max_prod_fast_int(&a), max_prod_brute_force_improved(&a));
}

#[test]
fn test_integer1() {
    let a: Vec<u128> = vec![
        4, 9, 7, 3, 4, 8, 9, 2, 0, 3, 9, 6, 9, 2, 0, 5, 7, 2, 5, 8, 9, 7, 1, 5, 2, 8, 3, 7, 5, 2,
        7, 8, 3, 1, 5, 4, 6, 1, 2, 5, 3, 2, 4, 4, 4, 3, 1, 9, 4, 7, 9, 4, 5, 7, 5, 5, 7, 5, 8, 9,
    ];
    let max = max_prod_fast_int(&a);
    assert_eq!(max, (15, 59));
    assert_eq!(max_prod_fast_int(&a), max_prod_brute_force(&a));
    assert_eq!(max_prod_fast_int(&a), max_prod_brute_force_improved(&a));
}

#[test]
fn ties_go_to_the_first_range() {
    // 2 is reached by (0, 1) and again by (3, 3).
    let a = vec![1u64, 2, 0, 2];
    assert_eq!(max_prod_fast_int(&a), (0, 1));
    assert_eq!(max_prod_brute_force(&a), (0, 1));
    assert_eq!(max_prod_brute_force_improved(&a), (0, 1));

    // Every range of ones has product one.
    let a = vec![1u8, 1, 1];
    assert_eq!(max_prod_fast_int(&a), (0, 0));
    assert_eq!(max_prod_brute_force(&a), (0, 0));
    assert_eq!(max_prod_brute_force_improved(&a), (0, 0));

    // 6 is reached by (0, 1) and by (3, 4); a later equal run does not win.
    let a = vec![2u16, 3, 0, 3, 2];
    assert_eq!(max_prod_fast_int(&a), (0, 1));
    assert_eq!(max_prod_brute_force(&a), (0, 1));
}

#[test]
fn all_zeros_give_the_first_position() {
    let a = vec![0usize, 0, 0, 0];
    assert_eq!(max_prod_fast_int(&a), (0, 0));
    assert_eq!(max_prod_brute_force(&a), (0, 0));
    assert_eq!(max_prod_brute_force_improved(&a), (0, 0));
}

#[test]
fn single_elements_give_the_only_range() {
    assert_eq!(max_prod_fast_int(&[0u32]), (0, 0));
    assert_eq!(max_prod_fast_int(&[1u32]), (0, 0));
    assert_eq!(max_prod_fast_int(&[u64::MAX]), (0, 0));
    assert_eq!(max_prod_brute_force(&[7u8]), (0, 0));
    assert_eq!(max_prod_brute_force_improved(&[7u8]), (0, 0));
}

#[test]
fn exhaustive_searches_take_the_empty_sequence() {
    let a: Vec<u32> = vec![];
    assert_eq!(max_prod_brute_force(&a), (0, 0));
    assert_eq!(max_prod_brute_force_improved(&a), (0, 0));
}

#[test]
fn later_run_wins_only_when_larger() {
    let a = vec![3u32, 5, 0, 4, 4, 0, 15];
    assert_eq!(max_prod_fast_int(&a), (3, 4));
    assert_eq!(max_prod_brute_force(&a), (3, 4));
    assert_eq!(max_prod_brute_force_improved(&a), (3, 4));
}

#[test]
fn product_of_the_range_found_is_the_largest() {
    let a = vec![4u64, 9, 7, 0, 3, 9, 6, 9, 2, 0, 5, 7];
    let (i, j) = max_prod_fast_int(&a);
    assert_eq!((i, j), (4, 8));
    assert_eq!(prod(&a, i, j), 2916);
    for p in 0..a.len() {
        for q in p..a.len() {
            assert!(prod(&a, p, q) <= 2916);
        }
    }
}

#[test]
fn prod_multiplies_out_a_range() {
    let a = vec![2u32, 3, 4, 5];
    assert_eq!(prod(&a, 0, 3), 120);
    assert_eq!(prod(&a, 1, 2), 12);
    assert_eq!(prod(&a, 2, 2), 4);
    // An empty range has the empty product.
    assert_eq!(prod(&a, 3, 1), 1);
    assert_eq!(prod(&[0u128, 9], 0, 1), 0);
}

#[test]
fn products_that_do_not_fit_still_give_a_range() {
    let a = vec![2u8, 128, 3];
    let fast = max_prod_fast_int(&a);
    assert!(fast.0 <= fast.1 && fast.1 < a.len());
    let slow = max_prod_brute_force(&a);
    assert!(slow.0 <= slow.1 && slow.1 < a.len());
    let improved = max_prod_brute_force_improved(&a);
    assert!(improved.0 <= improved.1 && improved.1 < a.len());
    // The product wraps around.
    assert_eq!(prod(&a, 0, 1), 0);
    assert_eq!(2u8.times(&128), 0);
    assert_eq!(16u8.times(&17), 16);
}

#[test]
fn unsigned_integers_are_scalars() {
    assert_eq!(<u32 as Scalar>::zero(), 0);
    assert_eq!(<u32 as Scalar>::one(), 1);
    assert_eq!(6u64.times(&7), 42);
    assert!(3u16.less(&4));
    assert!(!4u16.less(&4));
    assert!(!5u16.less(&4));
    assert_eq!(9u128.dup(), 9);
}
