use hako::text::{is_alnum_byte, is_space_byte};

#[test]
fn byte_classes_agree_with_latin1_chars() {
    for b in 0..=255u8 {
        assert_eq!(is_space_byte(b), (b as char).is_whitespace(), "byte {}", b);
        assert_eq!(is_alnum_byte(b), (b as char).is_alphanumeric(), "byte {}", b);
    }
}
