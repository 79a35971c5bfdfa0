use team_rounds::wide::{product, scaled, sum_below, Wide, Wider};

fn small(low: u128) -> Wider {
    Wider { top: 0, high: 0, low }
}

#[test]
fn small_products_stay_in_the_low_half() {
    let wide = product(6, 7);
    assert_eq!((wide.high, wide.low), (0, 42));
    let zero = product(0, u128::MAX);
    assert_eq!((zero.high, zero.low), (0, 0));
}

#[test]
fn large_products_carry_into_the_high_half() {
    let square = product(1u128 << 64, 1u128 << 64);
    assert_eq!((square.high, square.low), (1, 0));
    let most = product(u128::MAX, u128::MAX);
    assert_eq!((most.high, most.low), (u128::MAX - 1, 1));
    let mixed = product(u128::MAX, 2);
    assert_eq!((mixed.high, mixed.low), (1, u128::MAX - 1));
    let odd = product(
        0x1234_5678_9abc_def0_0fed_cba9_8765_4321,
        0xffff_0000_ffff_0000_ffff_0000_ffff_0001,
    );
    assert_eq!(
        (odd.high, odd.low),
        (0x1234_4444_5678_8877_8776_4433_4331_ffef, 0x0011_1223_4455_5667_8888_8765_4444_4321)
    );
}

#[test]
fn scaling_multiplies_all_parts() {
    let six = scaled(Wide { high: 0, low: 3 }, 2);
    assert_eq!((six.top, six.high, six.low), (0, 0, 6));
    let none = scaled(Wide { high: u128::MAX, low: u128::MAX }, 0);
    assert_eq!((none.top, none.high, none.low), (0, 0, 0));
    // (2^256 - 1) * (2^128 - 1) = 2^384 - 2^256 - 2^128 + 1
    let most = scaled(Wide { high: u128::MAX, low: u128::MAX }, u128::MAX);
    assert_eq!((most.top, most.high, most.low), (u128::MAX - 1, u128::MAX, 1));
    // (2^128 + (2^128 - 1)) * 2 = 2 * 2^128 + (2^128 - 2) + 2^128 ... = 3 * 2^128 + (2^128 - 2)
    let carried = scaled(Wide { high: 1, low: u128::MAX }, 2);
    assert_eq!((carried.top, carried.high, carried.low), (0, 3, u128::MAX - 1));
    // 2^255 * 2 = 2^256
    let over = scaled(Wide { high: 1u128 << 127, low: 0 }, 2);
    assert_eq!((over.top, over.high, over.low), (1, 0, 0));
    // (2^128 - 1) * 2^128 * 4 + ((2^128 - 1) * 4 carries 3 into the middle)
    let both = scaled(Wide { high: u128::MAX, low: u128::MAX }, 4);
    assert_eq!((both.top, both.high, both.low), (3, u128::MAX, u128::MAX - 3));
}

#[test]
fn sums_are_compared_without_wrapping() {
    let top = Wider { top: u128::MAX, high: u128::MAX, low: u128::MAX };
    assert!(sum_below(small(1), small(1), small(2), small(1)));
    assert!(!sum_below(small(2), small(1), small(1), small(2)));
    assert!(!sum_below(small(2), small(1), small(1), small(1)));
    // top + 1 reaches two to the power 384
    assert!(sum_below(top, small(0), top, small(1)));
    assert!(!sum_below(top, small(1), top, small(0)));
    assert!(!sum_below(top, small(1), small(0), small(2)));
    assert!(sum_below(top, small(1), top, small(2)));
    assert!(!sum_below(top, top, top, top));
}

#[test]
fn carries_run_through_all_parts() {
    let low_full = small(u128::MAX);
    let high_one = Wider { top: 0, high: 1, low: 0 };
    assert!(!sum_below(low_full, small(1), high_one, small(0)));
    assert!(!sum_below(high_one, small(0), low_full, small(1)));
    assert!(sum_below(low_full, small(0), high_one, small(0)));
    let two_full = Wider { top: 0, high: u128::MAX, low: u128::MAX };
    let top_one = Wider { top: 1, high: 0, low: 0 };
    assert!(!sum_below(two_full, small(1), top_one, small(0)));
    assert!(!sum_below(top_one, small(0), two_full, small(1)));
    assert!(sum_below(two_full, small(0), top_one, small(0)));
    assert!(sum_below(top_one, small(0), two_full, small(2)));
}

#[test]
fn the_order_goes_by_the_top_part_first() {
    let a = Wider { top: 1, high: 0, low: 0 };
    let b = Wider { top: 0, high: u128::MAX, low: u128::MAX };
    let c = Wider { top: 0, high: 5, low: 9 };
    let d = Wider { top: 0, high: 5, low: 10 };
    assert!(sum_below(b, small(0), a, small(0)));
    assert!(!sum_below(a, small(0), b, small(0)));
    assert!(sum_below(c, small(0), d, small(0)));
    assert!(!sum_below(d, small(0), c, small(0)));
    assert!(!sum_below(c, small(0), c, small(0)));
}
