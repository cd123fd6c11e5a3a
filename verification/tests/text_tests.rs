use vfuzztrie::text::{chars_of, first_char_of, string_of, uuid_to_hyphenated_string};

#[test]
fn uuid_text_is_lower_hex_with_hyphens() {
    let bytes: [u8; 16] = [0, 1, 2, 3, 4, 5, 6, 7, 8, 9, 10, 11, 12, 13, 14, 15];
    assert_eq!(uuid_to_hyphenated_string(&bytes), "00010203-0405-0607-0809-0a0b0c0d0e0f");
}

#[test]
fn uuid_text_of_high_bytes() {
    let bytes: [u8; 16] = [
        0xde, 0xad, 0xbe, 0xef, 0xff, 0x10, 0xa0, 0x0b, 0x9c, 0x7f, 0x80, 0x01, 0x23, 0x45, 0x67, 0x89,
    ];
    assert_eq!(uuid_to_hyphenated_string(&bytes), "deadbeef-ff10-a00b-9c7f-800123456789");
}

#[test]
fn chars_and_strings_round_trip() {
    let cs = chars_of("héllo");
    assert_eq!(cs, vec!['h', 'é', 'l', 'l', 'o']);
    assert_eq!(string_of(&cs), "héllo");
    assert_eq!(chars_of(""), Vec::<char>::new());
}

#[test]
fn first_char_or_nul() {
    assert_eq!(first_char_of("xyz"), 'x');
    assert_eq!(first_char_of("ж"), 'ж');
    assert_eq!(first_char_of(""), '\0');
}
