use bitfactor::search::{
    advance, factorize_iterative, frame_matches, product_or_max, try_order_flags, unwind, Frame,
};

fn canonical(r: Option<(u128, u128)>) -> Option<(u128, u128)> {
    r.map(|(a, b)| if a <= b { (a, b) } else { (b, a) })
}

fn smallest_factor(n: u128) -> Option<u128> {
    let mut d: u128 = 2;
    while d * d <= n {
        if n % d == 0 {
            return Some(d);
        }
        d += 1;
    }
    None
}

#[test]
fn unseeded_search_finds_small_products() {
    assert_eq!(factorize_iterative(15, 1, 1), Some((3, 5)));
    assert_eq!(factorize_iterative(9, 1, 1), Some((3, 3)));
    assert_eq!(factorize_iterative(77, 1, 1), Some((11, 7)));
    assert_eq!(factorize_iterative(255, 1, 1), Some((3, 85)));
}

#[test]
fn unseeded_search_returns_the_first_match_in_its_order() {
    // 105 = 3 * 35 = 5 * 21 = 7 * 15
    assert_eq!(factorize_iterative(105, 1, 1), Some((35, 3)));
}

#[test]
fn unseeded_search_round_trips_a_product_of_two_primes() {
    let n: u128 = 65_537 * 65_539;
    assert_eq!(factorize_iterative(n, 1, 1), Some((65_539, 65_537)));
    let m: u128 = 1_000_003 * 1_000_033;
    assert_eq!(factorize_iterative(m, 1, 1), Some((1_000_003, 1_000_033)));
}

#[test]
fn seeded_search_agrees_with_unseeded_search() {
    let n: u128 = 1_000_003 * 1_000_033;
    let plain = factorize_iterative(n, 1, 1);
    let seeded = factorize_iterative(n, 1_000_003 % 256, 1_000_033 % 256);
    let swapped = factorize_iterative(n, 1_000_033 % 256, 1_000_003 % 256);
    assert_eq!(seeded, Some((1_000_003, 1_000_033)));
    assert_eq!(swapped, Some((1_000_033, 1_000_003)));
    assert_eq!(canonical(seeded), canonical(plain));
    assert_eq!(canonical(swapped), canonical(plain));
}

#[test]
fn seeded_search_on_the_large_scenario() {
    let n: u128 = 1_000_003_967 * 1_000_004_249;
    assert_eq!(n, 1_000_008_216_016_855_783);
    assert_eq!(
        factorize_iterative(n, 153, 127),
        Some((1_000_004_249, 1_000_003_967))
    );
    assert_eq!(
        canonical(factorize_iterative(n, 153, 127)),
        Some((1_000_003_967, 1_000_004_249))
    );
}

#[test]
fn seeded_search_keeps_the_seed_as_low_bytes() {
    let n: u128 = 1_000_003_967 * 1_000_004_249;
    let (p, q) = factorize_iterative(n, 153, 127).unwrap();
    assert_eq!(p % 256, 153);
    assert_eq!(q % 256, 127);
    assert_eq!(p * q, n);
}

#[test]
fn seed_that_is_the_factorization_matches_at_once() {
    assert_eq!(factorize_iterative(15, 5, 3), Some((5, 3)));
    assert_eq!(factorize_iterative(15, 3, 5), Some((3, 5)));
    assert_eq!(factorize_iterative(105, 7, 15), Some((7, 15)));
    assert_eq!(factorize_iterative(6, 3, 2), Some((3, 2)));
    assert_eq!(factorize_iterative(4, 2, 2), Some((2, 2)));
}

#[test]
fn wrong_seed_is_rejected() {
    assert_eq!(factorize_iterative(15, 7, 3), None);
    assert_eq!(factorize_iterative(15, 5, 5), None);
    let n: u128 = 1_000_003 * 1_000_033;
    assert_eq!(factorize_iterative(n, 69, 97), None);
    let m: u128 = 1_000_003_967 * 1_000_004_249;
    assert_eq!(factorize_iterative(m, 155, 125), None);
}

#[test]
fn seed_with_a_value_of_one_or_zero_is_no_seed() {
    assert_eq!(factorize_iterative(15, 1, 5), factorize_iterative(15, 1, 1));
    assert_eq!(factorize_iterative(15, 15, 1), Some((3, 5)));
    assert_eq!(factorize_iterative(15, 0, 7), Some((3, 5)));
    assert_eq!(factorize_iterative(15, 7, 0), Some((3, 5)));
    let n: u128 = 65_537 * 65_539;
    assert_eq!(factorize_iterative(n, 3, 1), Some((65_539, 65_537)));
}

#[test]
fn numbers_without_an_odd_factorization_give_nothing() {
    assert_eq!(factorize_iterative(0, 1, 1), None);
    assert_eq!(factorize_iterative(1, 1, 1), None);
    assert_eq!(factorize_iterative(2, 1, 1), None);
    assert_eq!(factorize_iterative(6, 1, 1), None);
    assert_eq!(factorize_iterative(7, 1, 1), None);
    assert_eq!(factorize_iterative(13, 1, 1), None);
    assert_eq!(factorize_iterative(65_537, 1, 1), None);
    assert_eq!(factorize_iterative(1 << 20, 1, 1), None);
}

#[test]
fn result_is_never_trivial_and_always_a_factorization() {
    let mut n: u128 = 0;
    while n <= 4000 {
        match factorize_iterative(n, 1, 1) {
            Some((p, q)) => {
                assert!(p > 1 && q > 1);
                assert_eq!(p * q, n);
            }
            None => {
                // nothing is found only where n is even or has no divisor
                assert!(n % 2 == 0 || n < 2 || smallest_factor(n).is_none());
            }
        }
        n += 1;
    }
}

#[test]
fn every_factorization_is_found_from_its_low_bytes() {
    let mut n: u128 = 3;
    while n <= 3001 {
        let mut p: u128 = 3;
        while p * p <= n {
            if n % p == 0 {
                let q = n / p;
                let found = factorize_iterative(n, p % 256, q % 256);
                let (a, b) = found.unwrap();
                assert_eq!(a * b, n);
                assert!(a > 1 && b > 1);
                if p % 256 > 1 && q % 256 > 1 {
                    assert_eq!(a % 256, p % 256);
                    assert_eq!(b % 256, q % 256);
                }
            }
            p += 2;
        }
        n += 2;
    }
}

#[test]
fn product_that_does_not_fit_is_held_at_the_maximum() {
    let big: u128 = 1 << 100;
    assert_eq!(factorize_iterative(u128::MAX, big, big), None);
    assert_eq!(factorize_iterative(u128::MAX, 255, 255 + (1 << 126)), None);
    assert_eq!(factorize_iterative(u128::MAX, u128::MAX, 2), None);
    assert_eq!(factorize_iterative(12345, u128::MAX, u128::MAX), None);
}

#[test]
fn largest_number_is_matched_by_its_exact_factors() {
    let p: u128 = (1 << 64) - 1;
    let q: u128 = (1 << 64) + 1;
    assert_eq!(factorize_iterative(u128::MAX, p, q), Some((p, q)));
}

#[test]
fn search_reaches_the_top_bit_without_a_match() {
    let q: u128 = (1 << 126) + 1;
    let n: u128 = 3 * q + 2;
    assert_eq!(factorize_iterative(n, 3, q - (1 << 100)), None);
}

#[test]
fn search_extends_a_seed_up_to_bit_100() {
    let q: u128 = (1 << 126) + 1;
    let n: u128 = 3 * q;
    assert_eq!(factorize_iterative(n, 3, q - (1 << 100)), Some((3, q)));
}

#[test]
fn advance_raises_one_factor_where_the_bit_disagrees() {
    let f = Frame { p: 1, q: 1, pq: 1 };
    // bit 1 of 15 is set, bit 1 of the product 1 is not
    let a = advance(15, 1, f, true);
    assert_eq!((a.p, a.q, a.pq), (3, 1, 3));
    let b = advance(15, 1, f, false);
    assert_eq!((b.p, b.q, b.pq), (1, 3, 3));
    let g = Frame { p: 3, q: 1, pq: 3 };
    // bit 2 of 15 is set, bit 2 of the product 3 is not
    let c = advance(15, 2, g, false);
    assert_eq!((c.p, c.q, c.pq), (3, 5, 15));
    let d = advance(15, 2, g, true);
    assert_eq!((d.p, d.q, d.pq), (7, 1, 7));
}

#[test]
fn advance_raises_both_factors_or_none_where_the_bit_agrees() {
    let f = Frame { p: 1, q: 1, pq: 1 };
    // bit 1 of 9 is clear, as is bit 1 of the product 1
    let a = advance(9, 1, f, true);
    assert_eq!((a.p, a.q, a.pq), (3, 3, 9));
    let b = advance(9, 1, f, false);
    assert_eq!((b.p, b.q, b.pq), (1, 1, 1));
    let g = Frame { p: 5, q: 3, pq: 15 };
    // bit 4 of 1000 is clear, as is bit 4 of the product 15
    let c = advance(1000, 4, g, true);
    assert_eq!((c.p, c.q, c.pq), (21, 19, 399));
}

#[test]
fn advance_holds_the_product_at_the_maximum() {
    let f = Frame { p: 1, q: 1, pq: 1 };
    let a = advance(1, 63, f, true);
    assert_eq!(a.p, 1 + (1u128 << 63));
    assert_eq!(a.q, 1 + (1u128 << 63));
    assert_eq!(a.pq, 85070591730234615884290395931651604481);
    let b = advance(1, 64, f, true);
    assert_eq!((b.p, b.q, b.pq), (1 + (1u128 << 64), 1 + (1u128 << 64), u128::MAX));
    let c = advance(1, 65, f, true);
    assert_eq!((c.p, c.q, c.pq), (1 + (1u128 << 65), 1 + (1u128 << 65), u128::MAX));
    let g = Frame { p: 3, q: (1 << 100) + 1, pq: 3 * ((1 << 100) + 1) };
    // bit 101 of the product is set, bit 101 of n is clear
    let n: u128 = 1 << 102;
    let d = advance(n, 101, g, true);
    assert_eq!((d.p, d.q, d.pq), (3 + (1u128 << 101), (1 << 100) + 1, u128::MAX));
    let e = advance(n, 101, g, false);
    assert_eq!(e.p, 3);
    assert_eq!(e.q, (1u128 << 101) + (1 << 100) + 1);
    assert_eq!(e.pq, 3 * ((1u128 << 101) + (1 << 100) + 1));
}

#[test]
fn advance_at_the_highest_level() {
    let f = Frame { p: 3, q: 5, pq: 15 };
    let n: u128 = (1 << 127) + 15;
    // bit 127 of n is set, bit 127 of the product 15 is not
    let a = advance(n, 127, f, true);
    assert_eq!((a.p, a.q, a.pq), (3 + (1u128 << 127), 5, u128::MAX));
    let g = Frame { p: 1, q: 1, pq: 1 };
    let m: u128 = (1 << 127) + 1;
    let b = advance(m, 127, g, false);
    assert_eq!((b.p, b.q, b.pq), (1, m, m));
}

#[test]
fn frame_matches_needs_the_exact_product_and_no_factor_one() {
    assert!(frame_matches(15, &Frame { p: 3, q: 5, pq: 15 }));
    assert!(!frame_matches(15, &Frame { p: 1, q: 15, pq: 15 }));
    assert!(!frame_matches(15, &Frame { p: 15, q: 1, pq: 15 }));
    assert!(!frame_matches(15, &Frame { p: 3, q: 4, pq: 12 }));
    assert!(!frame_matches(15, &Frame { p: 3, q: 7, pq: 21 }));
    let big: u128 = 1 << 100;
    assert!(!frame_matches(u128::MAX, &Frame { p: big, q: big, pq: u128::MAX }));
    let p: u128 = (1 << 64) - 1;
    let q: u128 = (1 << 64) + 1;
    assert!(frame_matches(u128::MAX, &Frame { p, q, pq: u128::MAX }));
    assert!(!frame_matches(u128::MAX, &Frame { p: 1, q: u128::MAX, pq: u128::MAX }));
}

#[test]
fn product_or_max_is_exact_until_it_overflows() {
    assert_eq!(product_or_max(3, 5), 15);
    assert_eq!(product_or_max(0, u128::MAX), 0);
    assert_eq!(product_or_max(1 << 64, 1 << 63), 1 << 127);
    assert_eq!(product_or_max(1 << 64, 1 << 64), u128::MAX);
    assert_eq!(product_or_max((1 << 64) - 1, (1 << 64) + 1), u128::MAX);
    assert_eq!(product_or_max((1 << 64) - 1, 1 << 64), u128::MAX - ((1 << 64) - 1));
}

#[test]
fn try_order_flags_alternate_from_level_one() {
    let flags = try_order_flags();
    assert_eq!(flags.len(), 128);
    assert!(!flags[0]);
    assert!(flags[1]);
    assert!(!flags[2]);
    assert!(!flags[126]);
    assert!(flags[127]);
}

#[test]
fn root_frame_is_one_times_one() {
    let f = Frame::root();
    assert_eq!((f.p, f.q, f.pq), (1, 1, 1));
}

#[test]
fn seeded_frame_holds_the_seed_and_its_product() {
    let f = Frame::seeded(153, 127);
    assert_eq!((f.p, f.q, f.pq), (153, 127, 19431));
    let big = Frame::seeded(1 << 100, 1 << 100);
    assert_eq!((big.p, big.q, big.pq), (1 << 100, 1 << 100, u128::MAX));
}

#[test]
fn unwind_stops_at_the_first_level_with_an_attempt_left() {
    let mut tries: Vec<u8> = vec![0; 129];
    tries[1] = 1;
    tries[2] = 2;
    tries[3] = 1;
    tries[4] = 2;
    tries[5] = 2;
    let j = unwind(&mut tries, 6, 0);
    assert_eq!(j, 3);
    assert_eq!(&tries[0..8], &[0, 1, 2, 1, 0, 0, 0, 0]);
    let j = unwind(&mut tries, 4, 0);
    assert_eq!(j, 3);
    tries[3] = 2;
    let j = unwind(&mut tries, 4, 0);
    assert_eq!(j, 1);
    assert_eq!(&tries[0..8], &[0, 1, 0, 0, 0, 0, 0, 0]);
}

#[test]
fn unwind_stops_at_the_base_when_every_level_is_spent() {
    let mut tries: Vec<u8> = vec![0; 129];
    tries[8] = 2;
    tries[9] = 2;
    tries[10] = 2;
    let j = unwind(&mut tries, 11, 7);
    assert_eq!(j, 7);
    assert!(tries.iter().all(|t| *t == 0));
    let mut top: Vec<u8> = vec![0; 129];
    top[127] = 1;
    top[128] = 0;
    let j = unwind(&mut top, 128, 0);
    assert_eq!(j, 127);
    assert_eq!(top[127], 1);
    assert_eq!(top[128], 0);
}

#[test]
fn seeded_result_is_a_factorization_that_extends_the_seed() {
    let mut n: u128 = 0;
    while n <= 700 {
        let mut s: u128 = 2;
        while s <= 19 {
            let mut t: u128 = 2;
            while t <= 19 {
                if let Some((p, q)) = factorize_iterative(n, s, t) {
                    assert_eq!(p * q, n);
                    assert!(p > 1 && q > 1);
                    assert!(p >= s && (p - s) % 256 == 0);
                    assert!(q >= t && (q - t) % 256 == 0);
                }
                t += 1;
            }
            s += 1;
        }
        n += 1;
    }
}

#[test]
fn search_from_odd_bytes_succeeds_exactly_where_a_factorization_has_them() {
    let mut n: u128 = 1;
    while n <= 70_000 {
        let mut s: u128 = 3;
        while s <= 9 {
            let mut t: u128 = 3;
            while t <= 9 {
                // is there a factorization of n with the low bytes s and t?
                let mut exists = false;
                let mut a = s;
                while a <= n {
                    if n % a == 0 && (n / a) % 256 == t && n / a > 1 {
                        exists = true;
                    }
                    a += 256;
                }
                assert_eq!(factorize_iterative(n, s, t).is_some(), exists);
                t += 2;
            }
            s += 2;
        }
        n += 97;
    }
}
