use locators::latin25::{from_latin25, hash_string_to_latin25, to_latin25};

#[test]
fn check_known_latin25() {
    assert_eq!(to_latin25(0), "0");
    assert_eq!(to_latin25(1), "1");
    assert_eq!(to_latin25(24), "Z");
    assert_eq!(to_latin25(25), "10");
    assert_eq!(to_latin25(3662109375), "M000000");
    assert_eq!(to_latin25(u64::MAX), "JEJ449Z0XWHALM");

    assert_eq!(from_latin25("0"), Some(0));
    assert_eq!(from_latin25("1"), Some(1));
    assert_eq!(from_latin25("2"), None);
    assert_eq!(from_latin25("3"), Some(2));
    assert_eq!(from_latin25("Z"), Some(24));
    assert_eq!(from_latin25("10"), Some(25));

    assert_eq!(from_latin25("M000000"), Some(3662109375));
}

#[test]
fn check_round_trip_latin25() {
    let mut n: u64 = 1;
    while n < u64::MAX / 3 {
        match from_latin25(&to_latin25(n)) {
            Some(decoded) => assert_eq!(n, decoded),
            None => panic!("round trip failed"),
        }
        n = n.wrapping_mul(3).wrapping_add(11);
    }
    assert_eq!(from_latin25(&to_latin25(0)), Some(0));
    assert_eq!(from_latin25(&to_latin25(u64::MAX)), Some(u64::MAX));
}

#[test]
fn check_hash_latin25() {
    assert_eq!(
        hash_string_to_latin25("You'll get used to it. Or, you'll have a psychotic episode"),
        "E4AJ4G9E0T8Z8T"
    );
}

#[test]
fn check_latin25_overflow_rejected() {
    // one more character than the sentinel
    assert_eq!(from_latin25("100000000000000"), None);
    // same length as the sentinel, lexicographically greater
    assert_eq!(from_latin25("JEJ449Z0XWHALN"), None);
    assert_eq!(from_latin25("ZZZZZZZZZZZZZZ"), None);
}

#[test]
fn check_latin25_foreign_rejected() {
    // glyphs excluded from the alphabet for being confusable
    assert_eq!(from_latin25("B"), None);
    assert_eq!(from_latin25("O"), None);
    assert_eq!(from_latin25("5"), None);
    assert_eq!(from_latin25("1 0"), None);
}
