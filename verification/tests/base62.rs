use locators::base62::{from_base62, hash_string_to_base62, to_base62};
use locators::pad_with_zeros;

#[test]
fn check_int_to_base62() {
    assert_eq!(to_base62(1), "1");
    assert_eq!(to_base62(61), "z");
    assert_eq!(to_base62(62), "10");
    assert_eq!(to_base62(63), "11");
    assert_eq!(to_base62(u64::MAX), "LygHa16AHYF");
}

#[test]
fn check_base62_to_int() {
    assert_eq!(from_base62("1"), Some(1));
    assert_eq!(from_base62("z"), Some(61));
    assert_eq!(from_base62("10"), Some(62));
    assert_eq!(from_base62("11"), Some(63));
    assert_eq!(from_base62("LygHa16AHYF"), Some(u64::MAX));

    assert_eq!(from_base62("!"), None);
    assert_eq!(from_base62(" "), None);
    assert_eq!(from_base62("1 2"), None);
}

#[test]
fn check_left_padding() {
    assert_eq!(pad_with_zeros(5, "1"), "00001");
    assert_eq!(pad_with_zeros(5, "123456"), "123456");
    assert_eq!(pad_with_zeros(10, &to_base62(u64::MAX)), "LygHa16AHYF");
    assert_eq!(pad_with_zeros(11, &to_base62(u64::MAX)), "LygHa16AHYF");
    assert_eq!(pad_with_zeros(12, &to_base62(u64::MAX)), "0LygHa16AHYF");
}

#[test]
fn check_hash_base62() {
    assert_eq!(
        hash_string_to_base62("You'll get used to it. Or, you'll have a psychotic episode"),
        "GDDR4HcGLCV"
    );
}

#[test]
fn check_base62_zero() {
    assert_eq!(to_base62(0), "0");
    assert_eq!(from_base62("0"), Some(0));
}

#[test]
fn check_base62_overflow_rejected() {
    // one more character than the sentinel
    assert_eq!(from_base62("100000000000"), None);
    // same length as the sentinel, lexicographically greater
    assert_eq!(from_base62("LygHa16AHYG"), None);
    assert_eq!(from_base62("zzzzzzzzzzz"), None);
}

#[test]
fn check_base62_round_trip() {
    let mut n: u64 = 1;
    while n < u64::MAX / 3 {
        assert_eq!(from_base62(&to_base62(n)), Some(n));
        n = n.wrapping_mul(3).wrapping_add(7);
    }
    assert_eq!(from_base62(&to_base62(0)), Some(0));
    assert_eq!(from_base62(&to_base62(u64::MAX)), Some(u64::MAX));
}

#[test]
fn check_base62_empty_decodes_to_zero() {
    assert_eq!(from_base62(""), Some(0));
}

#[test]
fn check_base62_leading_zeros_accepted() {
    assert_eq!(from_base62("007"), Some(7));
}
