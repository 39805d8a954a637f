use locators::{greater_than, pad_with_zeros};

#[test]
fn check_bounds() {
    assert_eq!(greater_than("0", "Hello"), false);
    assert_eq!(greater_than("1", "Hello"), false);
    assert_eq!(greater_than("H", "Hello"), false);
    assert_eq!(greater_than("Hello", "Hello"), false);
    assert_eq!(greater_than("Hellp", "Hello"), true);
    assert_eq!(greater_than("A00000", "Hello"), true);
    assert_eq!(greater_than("I", "Hello"), false);
}

#[test]
fn check_bounds_length_dominance() {
    // a longer string is greater whatever its characters
    assert_eq!(greater_than("000000", "zzzzz"), true);
    assert_eq!(greater_than("zzzzz", "000000"), false);
    // empty strings
    assert_eq!(greater_than("", ""), false);
    assert_eq!(greater_than("", "0"), false);
    assert_eq!(greater_than("0", ""), true);
}

#[test]
fn check_padding_edges() {
    assert_eq!(pad_with_zeros(0, ""), "");
    assert_eq!(pad_with_zeros(3, ""), "000");
    assert_eq!(pad_with_zeros(5, "12345"), "12345");
}
