use locators::english16::{from_english16, to_english16};

#[test]
fn check_known_english16() {
    assert_eq!(to_english16(0x000001), "1");
    assert_eq!(to_english16(0x000010), "10");
    assert_eq!(to_english16(0x000100), "100");
    assert_eq!(to_english16(u32::MIN), "0");
    assert_eq!(to_english16(u32::MAX), "YYYYYYYY");

    assert_eq!(from_english16("1"), Some(1));
    assert_eq!(from_english16("10"), Some(16));
    assert_eq!(from_english16("100"), Some(256));
    assert_eq!(from_english16("0"), Some(0));
    assert_eq!(from_english16("YYYYYYYY"), Some(u32::MAX));
    assert_eq!(from_english16("YYYYYYYZ"), None); // illegal character, also "greater"
    assert_eq!(from_english16("100000000"), None);
}

#[test]
fn check_round_trip_english16() {
    let mut n: u32 = 1;
    while n < u32::MAX / 3 {
        match from_english16(&to_english16(n)) {
            Some(decoded) => assert_eq!(n, decoded),
            None => panic!("round trip failed"),
        }
        n = n.wrapping_mul(3).wrapping_add(5);
    }
    assert_eq!(from_english16(&to_english16(0)), Some(0));
    assert_eq!(from_english16(&to_english16(u32::MAX)), Some(u32::MAX));
}

#[test]
fn check_english16_digits() {
    // each digit maps to its own glyph
    assert_eq!(to_english16(2), "2");
    assert_eq!(to_english16(3), "C");
    assert_eq!(to_english16(5), "F");
    assert_eq!(to_english16(6), "H");
    assert_eq!(to_english16(10), "K");
    assert_eq!(to_english16(15), "Y");
    assert_eq!(from_english16("C"), Some(3));
    assert_eq!(from_english16("Y"), Some(15));
}

#[test]
fn check_english16_foreign_rejected() {
    // glyphs excluded from the alphabet for being confusable
    assert_eq!(from_english16("O"), None);
    assert_eq!(from_english16("3"), None);
    assert_eq!(from_english16("A"), None);
    assert_eq!(from_english16("1 0"), None);
}
