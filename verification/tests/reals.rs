use max_product::{
    compress_dual, is_compressible, max_prod_brute_force, max_prod_brute_force_improved,
    max_prod_fast_real, prod, Ratio, Scalar,
};
use rand::distributions::uniform::Uniform;
use rand::{thread_rng, Rng};

/// The digits in base 2^32 of `m * 2^shift`, the least significant first.
fn shifted(m: u64, shift: u64) -> Vec<u32> {
    let mut digits = vec![0u32; (shift / 32) as usize];
    let mut rest = (m as u128) << (shift % 32);
    while rest != 0 {
        digits.push((rest & 0xffff_ffff) as u32);
        rest >>= 32;
    }
    digits
}

/// The fraction that a finite non-negative float stands for, exactly.
fn exact(x: f64) -> Ratio {
    assert!(x.is_finite() && x >= 0.0);
    let bits = x.to_bits();
    let biased = (bits >> 52) & 0x7ff;
    let fraction = bits & ((1u64 << 52) - 1);
    let (mut m, mut e) = if biased == 0 {
        (fraction, -1074i64)
    } else {
        (fraction | (1u64 << 52), biased as i64 - 1075)
    };
    while m != 0 && m % 2 == 0 && e < 0 {
        m /= 2;
        e += 1;
    }
    let (num, den) = if m == 0 {
        (vec![], vec![1])
    } else if e >= 0 {
        (shifted(m, e as u64), vec![1])
    } else {
        (shifted(m, 0), shifted(1, (-e) as u64))
    };
    Ratio::from_digits(&num, &den).unwrap()
}

fn exact_all(xs: &[f64]) -> Vec<Ratio> {
    xs.iter().map(|x| exact(*x)).collect()
}

fn same(a: &Ratio, b: &Ratio) -> bool {
    !a.less(b) && !b.less(a)
}

#[test]
fn test_real_basic() {
    let arr = exact_all(&[0.1, 0.5, 13.0, 2.0, 0.1, 4.0, 6.0, 7.0, 8.0, 0.1, 0.2]);
    assert_eq!(max_prod_fast_real(&arr), max_prod_brute_force_improved(&arr));
}

#[test]
fn test_random_real() {
    for _ in 0..1000 {
        let a: Vec<f64> = thread_rng().sample_iter(Uniform::new(0.0, 2.0)).take(100).collect();
        let a = exact_all(&a);
        assert_eq!(max_prod_fast_real(&a), max_prod_brute_force_improved(&a));
    }
}

#[test]
fn test_random_real2() {
    for i in 1..200 {
        let a: Vec<f64> = thread_rng().sample_iter(Uniform::new(0.0, 2.0)).take(i / 2).collect();
        println!("a = {:?}", a);
        let a = exact_all(&a);
        if a.is_empty() {
            // The linear search takes no empty sequence.
            assert_eq!(max_prod_brute_force_improved(&a), (0, 0));
            continue;
        }
        assert_eq!(max_prod_fast_real(&a), max_prod_brute_force_improved(&a));
    }
}

#[test]
fn test_real_brute_force_01() {
    let farr: Vec<f32> = thread_rng().sample_iter(Uniform::new(0.0, 1.0)).take(20).collect();
    println!("F = {:?}", farr);
    let exact_arr: Vec<Ratio> = farr.iter().map(|x| exact(*x as f64)).collect();
    let (i, j) = max_prod_brute_force(&exact_arr[..]);
    let p = prod(&exact_arr, i, j);
    let m = farr.iter().fold(0.0f32, |a, b| b.max(a));
    println!("F[{i} .. {j}] (max = {m})");
    assert!(same(&p, &exact(m as f64)));
}

#[test]
fn compress_keeps_products_and_spans() {
    let arr = exact_all(&[0.5, 0.25, 2.0, 4.0, 0.5, 0.5, 8.0, 0.125]);
    let runs = compress_dual(&arr);
    assert_eq!(runs.len(), 3);
    assert_eq!((runs[0].1, runs[0].2), (2, 3));
    assert_eq!((runs[1].1, runs[1].2), (4, 5));
    assert_eq!((runs[2].1, runs[2].2), (6, 6));
    assert!(same(&runs[0].0, &exact(8.0)));
    assert!(same(&runs[1].0, &exact(0.25)));
    assert!(same(&runs[2].0, &exact(8.0)));
}

#[test]
fn real_basic_range_is_known() {
    let arr = exact_all(&[0.1, 0.5, 13.0, 2.0, 0.1, 4.0, 6.0, 7.0, 8.0, 0.1, 0.2]);
    assert_eq!(max_prod_fast_real(&arr), (2, 8));
    assert_eq!(max_prod_brute_force_improved(&arr), (2, 8));
    assert_eq!(max_prod_brute_force(&arr), (2, 8));
}

#[test]
fn leading_and_trailing_small_elements_are_left_out() {
    let arr = exact_all(&[0.5, 0.25, 2.0, 4.0, 0.5, 0.5, 8.0, 0.125]);
    assert_eq!(max_prod_fast_real(&arr), (2, 6));
    assert_eq!(max_prod_brute_force_improved(&arr), (2, 6));
}

#[test]
fn trailing_run_is_kept_only_above_one() {
    // The last run, of elements below one, is dropped.
    let arr = exact_all(&[2.0, 0.5, 0.5]);
    let runs = compress_dual(&arr);
    assert_eq!(runs.len(), 1);
    assert_eq!((runs[0].1, runs[0].2), (0, 0));

    // The last run, of ones, is dropped too.
    let arr = exact_all(&[2.0, 0.5, 1.0]);
    let runs = compress_dual(&arr);
    assert_eq!(runs.len(), 2);
    assert_eq!((runs[1].1, runs[1].2), (1, 1));
    assert!(same(&runs[1].0, &exact(0.5)));

    // A last run above one stays.
    let arr = exact_all(&[2.0, 0.5, 1.0, 1.5]);
    let runs = compress_dual(&arr);
    assert_eq!(runs.len(), 3);
    assert_eq!((runs[2].1, runs[2].2), (2, 3));
    assert!(same(&runs[2].0, &exact(1.5)));
}

#[test]
fn ones_count_as_at_or_above_one() {
    let arr = exact_all(&[1.0, 2.0, 0.5, 4.0]);
    let runs = compress_dual(&arr);
    assert_eq!(runs.len(), 3);
    assert_eq!((runs[0].1, runs[0].2), (0, 1));
    assert!(same(&runs[0].0, &exact(2.0)));
    assert_eq!(max_prod_fast_real(&arr), (0, 3));
    assert_eq!(max_prod_brute_force_improved(&arr), (0, 3));
}

#[test]
fn all_below_one_gives_the_first_largest_element() {
    let arr = exact_all(&[0.5, 0.75, 0.25]);
    let runs = compress_dual(&arr);
    assert_eq!(runs.len(), 1);
    assert_eq!((runs[0].1, runs[0].2), (1, 1));
    assert!(same(&runs[0].0, &exact(0.75)));
    assert_eq!(max_prod_fast_real(&arr), (1, 1));
    assert_eq!(max_prod_brute_force_improved(&arr), (1, 1));

    let arr = exact_all(&[0.25, 0.75, 0.75]);
    assert_eq!(max_prod_fast_real(&arr), (1, 1));
    assert_eq!(max_prod_brute_force(&arr), (1, 1));

    let arr = exact_all(&[0.0, 0.0, 0.0]);
    assert_eq!(max_prod_fast_real(&arr), (0, 0));
    assert_eq!(max_prod_brute_force(&arr), (0, 0));
}

#[test]
fn single_reals_give_the_only_range() {
    assert_eq!(max_prod_fast_real(&exact_all(&[3.0])), (0, 0));
    assert_eq!(max_prod_fast_real(&exact_all(&[0.5])), (0, 0));
    assert_eq!(max_prod_fast_real(&exact_all(&[0.0])), (0, 0));
    assert_eq!(max_prod_brute_force_improved(&exact_all(&[3.0])), (0, 0));
    assert_eq!(max_prod_brute_force(&exact_all(&[0.5])), (0, 0));
}

#[test]
fn merging_pays_only_when_the_product_grows() {
    // 4 * 0.125 * 2 is 1, below 4: the search stays with the first run.
    let arr = exact_all(&[4.0, 0.125, 2.0]);
    assert_eq!(max_prod_fast_real(&arr), (0, 0));
    assert_eq!(max_prod_brute_force_improved(&arr), (0, 0));

    // 4 * 0.5 * 2 is 4, not above 4: the first run still stands.
    let arr = exact_all(&[4.0, 0.5, 2.0]);
    assert_eq!(max_prod_fast_real(&arr), (0, 0));
    assert_eq!(max_prod_brute_force_improved(&arr), (0, 0));

    // 4 * 0.5 * 3 is 6: the merger wins.
    let arr = exact_all(&[4.0, 0.5, 3.0]);
    assert_eq!(max_prod_fast_real(&arr), (0, 2));
    assert_eq!(max_prod_brute_force_improved(&arr), (0, 2));
}

#[test]
fn zero_splits_the_sequence() {
    let arr = exact_all(&[1.5, 0.0, 8.0, 0.5, 0.5, 0.5, 3.0]);
    let runs = compress_dual(&arr);
    assert_eq!(runs.len(), 5);
    assert!(same(&runs[1].0, &exact(0.0)));
    assert!(same(&runs[3].0, &exact(0.125)));
    assert_eq!(max_prod_fast_real(&arr), (2, 2));
    assert_eq!(max_prod_brute_force_improved(&arr), (2, 2));
}

#[test]
fn equal_maxima_may_come_out_as_a_later_range() {
    // (0, 4) and (2, 4) both have product 3. The exhaustive searches return
    // the first of them; the linear search returns one of maximal product.
    let arr = exact_all(&[2.0, 0.5, 2.0, 0.5, 3.0]);
    assert_eq!(max_prod_brute_force(&arr), (0, 4));
    assert_eq!(max_prod_brute_force_improved(&arr), (0, 4));
    let (i, j) = max_prod_fast_real(&arr);
    assert_eq!((i, j), (2, 4));
    assert!(same(&prod(&arr, i, j), &prod(&arr, 0, 4)));
}

#[test]
fn runs_carry_the_product_of_their_span() {
    let arr = exact_all(&[0.3, 1.7, 1.1, 0.2, 0.9, 5.5, 0.4, 1.2, 1.3, 0.6]);
    let runs = compress_dual(&arr);
    assert_eq!(runs.len(), 5);
    for run in runs.iter() {
        assert!(run.1 <= run.2 && run.2 < arr.len());
        assert!(same(&run.0, &prod(&arr, run.1, run.2)));
    }
    for k in 1..runs.len() {
        assert_eq!(runs[k].1, runs[k - 1].2 + 1);
    }
}

#[test]
fn range_found_has_the_largest_product() {
    let arr = exact_all(&[0.3, 1.7, 1.1, 0.2, 0.9, 5.5, 0.4, 1.2, 1.3, 0.6]);
    let (i, j) = max_prod_fast_real(&arr);
    assert_eq!((i, j), max_prod_brute_force_improved(&arr));
    let best = prod(&arr, i, j);
    for p in 0..arr.len() {
        for q in p..arr.len() {
            assert!(!best.less(&prod(&arr, p, q)));
        }
    }
}

#[test]
fn whole_numbers_take_the_general_search_too() {
    let a = vec![0u32, 3, 2, 0, 7];
    assert_eq!(max_prod_fast_real(&a), (4, 4));
    assert_eq!(max_prod_brute_force_improved(&a), (4, 4));
}

#[test]
fn compressible_inputs_are_told_apart() {
    let none: Vec<Ratio> = vec![];
    assert!(!is_compressible(&none));
    assert!(!is_compressible(&exact_all(&[1.0])));
    assert!(!is_compressible(&exact_all(&[0.5, 0.25, 1.0, 1.0])));
    assert!(is_compressible(&exact_all(&[0.5])));
    assert!(is_compressible(&exact_all(&[1.0, 0.5])));
    assert!(is_compressible(&exact_all(&[1.0, 1.0, 2.0])));
    assert!(is_compressible(&exact_all(&[0.0, 0.0])));
}
