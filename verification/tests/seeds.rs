use bitfactor::seeds::possible_factor_lsb_pairs;

fn expected_pairs(n: u128) -> Vec<(u8, u8)> {
    let mut all = Vec::new();
    let mut i: u32 = 0;
    while i < 256 {
        let mut j: u32 = 0;
        while j <= i {
            if (i * j) % 256 == (n % 256) as u32 {
                all.push((i as u8, j as u8));
            }
            j += 1;
        }
        i += 1;
    }
    all
}

#[test]
fn seeds_of_15_hold_5_and_3() {
    let seeds = possible_factor_lsb_pairs(15);
    assert!(seeds.contains(&(5, 3)));
    assert!(seeds.contains(&(15, 1)));
    assert!(!seeds.contains(&(3, 5)));
    for (i, j) in seeds.iter() {
        assert_eq!((*i as u32 * *j as u32) % 256, 15);
        assert!(j <= i);
    }
}

#[test]
fn seeds_are_exactly_the_consistent_pairs_in_order() {
    let samples: [u128; 8] = [
        0,
        1,
        15,
        128,
        255,
        256,
        1_000_008_216_016_855_783,
        u128::MAX,
    ];
    for n in samples.iter() {
        assert_eq!(possible_factor_lsb_pairs(*n), expected_pairs(*n));
    }
}

#[test]
fn seeds_depend_on_the_low_byte_only() {
    let mut low: u128 = 0;
    while low < 256 {
        let a = possible_factor_lsb_pairs(low);
        let b = possible_factor_lsb_pairs(low + (77 << 8));
        let c = possible_factor_lsb_pairs(low + (u128::MAX - 255));
        assert_eq!(a, expected_pairs(low));
        assert_eq!(a, b);
        assert_eq!(a, c);
        low += 1;
    }
}

#[test]
fn seeds_hold_each_pair_once_in_ascending_order() {
    let seeds = possible_factor_lsb_pairs(231);
    let mut x = 1;
    while x < seeds.len() {
        assert!(seeds[x - 1] < seeds[x]);
        x += 1;
    }
}

#[test]
fn seeds_of_an_odd_number_are_one_pair_for_each_two_odd_bytes() {
    // each odd byte has exactly one partner, and each pair is listed larger first
    let seeds = possible_factor_lsb_pairs(1_000_008_216_016_855_783);
    assert!(seeds.contains(&(153, 127)));
    assert!(seeds.contains(&(231, 1)));
    for (i, j) in seeds.iter() {
        assert!(i % 2 == 1 && j % 2 == 1);
    }
}

#[test]
fn seeds_of_a_multiple_of_256_start_with_zero() {
    let seeds = possible_factor_lsb_pairs(0);
    assert_eq!(seeds[0], (0, 0));
    assert_eq!(seeds[1], (1, 0));
    assert!(seeds.contains(&(16, 16)));
    assert!(seeds.contains(&(255, 0)));
    assert!(!seeds.contains(&(255, 255)));
}
