use denarii::algorithms::{Algorithm, AllocError};
use denarii::ceei::ceei_allocate;
use denarii::asset_fairness::AssetFairness;
use denarii::ceei::Ceei;
use denarii::drf::Drf;
use denarii::rat::Rat;

fn r(n: i64) -> Rat {
    Rat::from_int(n)
}

fn to_f(x: &Rat) -> f64 {
    x.numerator() as f64 / x.denominator() as f64
}

fn approx_eq(a: f64, b: f64, eps: f64) -> bool {
    // the tiny slack covers binary representation error of the bounds only
    (a - b).abs() <= eps + 1e-12
}

#[test]
fn drf_simple_example() {
    let resources = vec![r(9), r(18)];
    let demands = vec![vec![r(1), r(4)], vec![r(3), r(1)]];
    let alg = Drf {};
    let alloc = alg.allocate(&resources, &demands).unwrap();

    let expected_alloc = [3.0, 2.0];

    assert_eq!(alloc.len(), expected_alloc.len());

    for i in 0..alloc.len() {
        let got = to_f(&alloc[i]);
        assert!(
            approx_eq(got, expected_alloc[i], 0.01),
            "{} != {}",
            got,
            expected_alloc[i]
        );
    }
}

#[test]
fn drf_multiple_reqs() {
    let resources = vec![r(9), r(18)];
    let demands = vec![vec![r(1), r(4)], vec![r(3), r(1)], vec![r(4), r(2)]];
    let alg = Drf {};
    let alloc = alg.allocate(&resources, &demands).unwrap();
    let expected_alloc = [1.79, 1.20, 0.90];
    assert_eq!(alloc.len(), expected_alloc.len());
    for i in 0..alloc.len() {
        let got = to_f(&alloc[i]);
        assert!(
            approx_eq(got, expected_alloc[i], 0.01),
            "{} != {}",
            got,
            expected_alloc[i]
        );
    }
}

#[test]
fn ceei_simple_example() {
    let resources = vec![r(9), r(18)];
    let demands = vec![vec![r(1), r(4)], vec![r(3), r(1)]];
    let alg = Ceei {};
    let alloc = alg.allocate(&resources, &demands).unwrap();

    let expected_alloc = [4.09, 1.63];

    assert_eq!(alloc.len(), expected_alloc.len());

    for i in 0..alloc.len() {
        let got = to_f(&alloc[i]);
        assert!(
            approx_eq(got, expected_alloc[i], 0.01),
            "{} != {}",
            got,
            expected_alloc[i]
        );
    }
}

#[test]
fn ceei_multiple_reqs() {
    let resources = vec![r(9), r(18), r(15)];
    let demands = vec![
        vec![r(1), r(4), r(2)],
        vec![r(3), r(1), r(3)],
        vec![r(4), r(2), r(1)],
    ];
    let alg = Ceei {};
    let alloc = alg.allocate(&resources, &demands).unwrap();
    let expected_alloc = [4.09, 1.63, 0.0];
    assert_eq!(alloc.len(), expected_alloc.len());
    for i in 0..alloc.len() {
        let got = to_f(&alloc[i]);
        assert!(
            approx_eq(got, expected_alloc[i], 0.01),
            "{} != {}",
            got,
            expected_alloc[i]
        );
    }
}

#[test]
fn asset_fairness_simple_example() {
    let resources = vec![r(9), r(18)];
    let demands = vec![vec![r(1), r(4)], vec![r(3), r(1)]];
    let prices = vec![r(2), r(1)];
    let alg = AssetFairness { prices };
    let alloc = alg.allocate(&resources, &demands).unwrap();
    let expected_alloc = [2.52, 2.16];

    assert_eq!(alloc.len(), expected_alloc.len());

    for i in 0..alloc.len() {
        assert!(approx_eq(to_f(&alloc[i]), expected_alloc[i], 0.01));
    }
}

#[test]
fn asset_fairness_multiple_reqs() {
    let resources = vec![r(9), r(18)];
    let demands = vec![vec![r(1), r(4)], vec![r(3), r(1)], vec![r(4), r(2)]];
    let prices = vec![r(2), r(1)];
    let alg = AssetFairness { prices };
    let alloc = alg.allocate(&resources, &demands).unwrap();
    println!("{:?}", alloc);
    let expected_alloc = [1.50, 1.29, 0.90];
    assert_eq!(alloc.len(), expected_alloc.len());
    for i in 0..alloc.len() {
        println!("{}, {}, {}", i, to_f(&alloc[i]), expected_alloc[i]);
        assert!(approx_eq(to_f(&alloc[i]), expected_alloc[i], 0.01));
    }
}

#[test]
fn drf_simple_example_exact() {
    // the equalized optimum is exactly [3, 2]
    let resources = vec![r(9), r(18)];
    let demands = vec![vec![r(1), r(4)], vec![r(3), r(1)]];
    let alloc = Drf {}.allocate(&resources, &demands).unwrap();
    assert_eq!(alloc[0].numerator(), 3);
    assert_eq!(alloc[0].denominator(), 1);
    assert_eq!(alloc[1].numerator(), 2);
    assert_eq!(alloc[1].denominator(), 1);
}

#[test]
fn asset_fairness_simple_example_exact() {
    // the price-equalized optimum is exactly [63/25, 54/25]
    let resources = vec![r(9), r(18)];
    let demands = vec![vec![r(1), r(4)], vec![r(3), r(1)]];
    let prices = vec![r(2), r(1)];
    let alloc = AssetFairness { prices }.allocate(&resources, &demands).unwrap();
    assert_eq!(alloc[0].numerator(), 63);
    assert_eq!(alloc[0].denominator(), 25);
    assert_eq!(alloc[1].numerator(), 54);
    assert_eq!(alloc[1].denominator(), 25);
}

#[test]
fn ceei_brute_force_optimum() {
    // grid-search the same small program and check the solver's total
    // is at least as good as every feasible grid point
    let resources = vec![r(9), r(18)];
    let demands = vec![vec![r(1), r(4)], vec![r(3), r(1)]];
    let alloc = Ceei {}.allocate(&resources, &demands).unwrap();
    let total = to_f(&alloc[0]) + to_f(&alloc[1]);
    let mut best = 0.0f64;
    let mut x = 0.0f64;
    while x <= 9.0 {
        let mut y = 0.0f64;
        while y <= 9.0 {
            if x + 3.0 * y <= 9.0 && 4.0 * x + y <= 18.0 && x + y > best {
                best = x + y;
            }
            y += 0.01;
        }
        x += 0.01;
    }
    assert!(total >= best - 0.001, "{} < {}", total, best);
}

#[test]
fn empty_demands_skip_solver() {
    let resources = vec![r(9), r(18)];
    let empty: Vec<Vec<Rat>> = Vec::new();
    assert_eq!(Drf {}.allocate(&resources, &empty).unwrap().len(), 0);
    assert_eq!(Ceei {}.allocate(&resources, &empty).unwrap().len(), 0);
    let alg = AssetFairness {
        prices: vec![r(2), r(1)],
    };
    assert_eq!(alg.allocate(&resources, &empty).unwrap().len(), 0);
}

#[test]
fn dimension_mismatch_is_rejected() {
    let resources = vec![r(9), r(18)];
    let demands = vec![vec![r(1), r(4), r(7)]];
    assert!(matches!(
        Drf {}.allocate(&resources, &demands),
        Err(AllocError::DimensionMismatch)
    ));
    assert!(matches!(
        Ceei {}.allocate(&resources, &demands),
        Err(AllocError::DimensionMismatch)
    ));
    let alg = AssetFairness {
        prices: vec![r(2), r(1)],
    };
    assert!(matches!(
        alg.allocate(&resources, &demands),
        Err(AllocError::DimensionMismatch)
    ));
}

#[test]
fn price_length_mismatch_is_rejected() {
    let resources = vec![r(9), r(18)];
    let demands = vec![vec![r(1), r(4)]];
    let alg = AssetFairness {
        prices: vec![r(2)],
    };
    assert!(matches!(
        alg.allocate(&resources, &demands),
        Err(AllocError::DimensionMismatch)
    ));
}

#[test]
fn numeric_overflow_is_reported() {
    // two coprime denominators whose product leaves the representable range
    let resources = vec![r(1)];
    let demands = vec![vec![Rat::new(1, 3_100_000_001)]];
    let alg = AssetFairness {
        prices: vec![Rat::new(1, 3_100_000_003)],
    };
    assert!(matches!(
        alg.allocate(&resources, &demands),
        Err(AllocError::NumericOverflow)
    ));
}

#[test]
fn drf_dominant_shares_equalized() {
    // dominant shares: flow 0 -> 4/18 = 2/9, flow 1 -> 3/9 = 1/3;
    // share * rate must agree exactly across flows
    let resources = vec![r(9), r(18)];
    let demands = vec![vec![r(1), r(4)], vec![r(3), r(1)]];
    let alloc = Drf {}.allocate(&resources, &demands).unwrap();
    let s0 = 2.0 / 9.0 * to_f(&alloc[0]);
    let s1 = 1.0 / 3.0 * to_f(&alloc[1]);
    assert!(approx_eq(s0, s1, 1e-9), "{} != {}", s0, s1);
}

#[test]
fn ceei_accepts_zero_capacity() {
    // a zero-capacity resource pins every flow that demands it to zero
    let resources = vec![r(9), r(0)];
    let demands = vec![vec![r(1), r(4)], vec![r(3), r(1)]];
    let alloc = ceei_allocate(&resources, &demands).unwrap();
    assert_eq!(alloc.len(), 2);
    assert_eq!(to_f(&alloc[0]), 0.0);
    assert_eq!(to_f(&alloc[1]), 0.0);
}

#[test]
fn ceei_allocation_is_feasible() {
    let resources = vec![r(9), r(18), r(15)];
    let demands = vec![
        vec![r(1), r(4), r(2)],
        vec![r(3), r(1), r(3)],
        vec![r(4), r(2), r(1)],
    ];
    let alloc = Ceei {}.allocate(&resources, &demands).unwrap();
    for j in 0..resources.len() {
        let mut used = 0.0f64;
        for i in 0..alloc.len() {
            used += to_f(&demands[i][j]) * to_f(&alloc[i]);
        }
        assert!(used <= to_f(&resources[j]) + 1e-9);
    }
}
