use crawl4ai_core::fixedpoint::{ln_micro, sat_add};

#[test]
fn logarithm_is_exact_on_powers_of_two() {
    // ln 1 = 0; ln 2^k = k ln 2, and ln 2 in millionths is 693147.
    assert_eq!(ln_micro(1), 0);
    assert_eq!(ln_micro(2), 693_147);
    assert_eq!(ln_micro(4), 1_386_294);
    assert_eq!(ln_micro(1024), 6_931_471);
}

#[test]
fn logarithm_is_close_between_powers() {
    // ln 10 = 2.302585...; the series keeps the value within a few
    // millionths.
    let v = ln_micro(10);
    assert!(v >= 2_302_575 && v <= 2_302_590, "ln 10 came out as {}", v);
    // ln 1000000 = 13.815510...
    let w = ln_micro(1_000_000);
    assert!(w >= 13_815_495 && w <= 13_815_515, "ln 1e6 came out as {}", w);
}

#[test]
fn saturating_addition_caps_at_the_limit() {
    assert_eq!(sat_add(1, 2), 3);
    assert_eq!(sat_add(u64::MAX, 1), u64::MAX);
    assert_eq!(sat_add(u64::MAX - 5, 5), u64::MAX);
}
