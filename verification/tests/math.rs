use grande::math::{argmax, calibration_split, option_orders};

fn bits(v: &[f64]) -> Vec<u64> {
    v.iter().map(|x| x.to_bits()).collect()
}

#[test]
fn option_orders_are_distinct_and_capped() {
    assert_eq!(option_orders(1, 4), vec![vec![0]]);
    assert_eq!(option_orders(2, 4), vec![vec![0, 1], vec![1, 0]]);
    let o = option_orders(3, 8);
    assert_eq!(o.len(), 6);
    let mut set = o.clone();
    set.sort();
    set.dedup();
    assert_eq!(set.len(), 6);
    assert_eq!(
        option_orders(5, 3),
        vec![vec![0, 1, 2, 3, 4], vec![1, 2, 3, 4, 0], vec![2, 3, 4, 0, 1]]
    );
}

#[test]
fn reversed_orders_follow_the_rotations() {
    let o = option_orders(3, 6);
    assert_eq!(o[0], vec![0, 1, 2]);
    assert_eq!(o[2], vec![2, 0, 1]);
    assert_eq!(o[3], vec![2, 1, 0]);
    assert_eq!(o[4], vec![1, 0, 2]);
    assert_eq!(o[5], vec![0, 2, 1]);
    for order in &o {
        let mut all = order.clone();
        all.sort();
        assert_eq!(all, vec![0, 1, 2]);
    }
    assert!(option_orders(0, 0).is_empty());
}

#[test]
fn the_greatest_is_the_first_of_equals() {
    assert_eq!(argmax(&bits(&[0.25, 0.5, 0.5])), 1);
    assert_eq!(argmax(&bits(&[-1.0, -2.0, -0.5])), 2);
    assert_eq!(argmax(&bits(&[0.0, -0.0])), 0);
    assert_eq!(argmax(&bits(&[-0.0, 0.0])), 0);
    assert_eq!(argmax(&bits(&[1.0, f64::NAN, 2.0])), 2);
    assert_eq!(argmax(&bits(&[f64::NAN, 1.0])), 0);
    assert_eq!(argmax(&bits(&[f64::NEG_INFINITY, f64::INFINITY])), 1);
    assert_eq!(argmax(&bits(&[])), 0);
}

#[test]
fn no_options_have_one_empty_order() {
    assert_eq!(option_orders(0, 1), vec![Vec::<usize>::new()]);
    assert_eq!(option_orders(0, 4), vec![Vec::<usize>::new()]);
    assert_eq!(option_orders(0, 0), Vec::<Vec<usize>>::new());
}

#[test]
fn fewer_orders_begin_as_more_do() {
    for k in 0..6 {
        let most = option_orders(k, 20);
        for m in 0..20 {
            let some = option_orders(k, m);
            assert_eq!(some.len(), m.min(most.len()));
            assert_eq!(some[..], most[..some.len()]);
        }
        assert_eq!(most[0], (0..k).collect::<Vec<usize>>());
    }
}

#[test]
fn every_other_row_calibrates() {
    assert_eq!(calibration_split(5), (vec![0, 2, 4], vec![1, 3]));
    assert_eq!(calibration_split(4), (vec![0, 2], vec![1, 3]));
    assert_eq!(calibration_split(1), (vec![0], vec![]));
    assert_eq!(calibration_split(0), (vec![], vec![]));
    let (a, b) = ([10, 1, 20, 2, 30], [10, 7, 20, 8, 30]);
    let pick = |rows: &[i32; 5], at: &[usize]| at.iter().map(|&i| rows[i]).collect::<Vec<i32>>();
    let (even, odd) = calibration_split(5);
    assert_eq!(pick(&a, &even), pick(&b, &even));
    assert_ne!(pick(&a, &odd), pick(&b, &odd));
}
