use sticker_packer::text::ascii_lowercase;

#[test]
fn ascii_lowercase_lowers_only_ascii_capitals() {
    assert_eq!(ascii_lowercase("PNG"), "png");
    assert_eq!(ascii_lowercase("Mixed Case 42!"), "mixed case 42!");
    assert_eq!(ascii_lowercase("ÀZé"), "Àzé");
    assert_eq!(ascii_lowercase(""), "");
}
