use http_server::text::{
    bytes_eq, colon_bytes, contains_byte, contains_ows, crlf_bytes, eq_ignore_case, is_ows,
    leading_ows, leading_token, starts_with, to_ascii_lower, trim_ows, COLON, CR, HTAB, LF, SP,
};

#[test]
fn delimiters_have_their_ascii_codes() {
    assert_eq!((CR, LF, SP, HTAB, COLON), (b'\r', b'\n', b' ', b'\t', b':'));
    assert_eq!(crlf_bytes(), "\r\n".as_bytes());
    assert_eq!(colon_bytes(), ":".as_bytes());
}

#[test]
fn whitespace_is_space_and_tab_only() {
    for byte in 0..=255u8 {
        assert_eq!(is_ows(byte), byte == b' ' || byte == b'\t');
    }
}

#[test]
fn lower_case_folds_ascii_letters_only() {
    for byte in 0..=255u8 {
        assert_eq!(to_ascii_lower(byte), byte.to_ascii_lowercase());
    }
}

#[test]
fn runs_are_counted_from_the_start() {
    assert_eq!(leading_ows(" \t x ".as_bytes()), 3);
    assert_eq!(leading_ows("x ".as_bytes()), 0);
    assert_eq!(leading_ows("  ".as_bytes()), 2);
    assert_eq!(leading_ows("".as_bytes()), 0);
    assert_eq!(leading_token("GET /".as_bytes()), 3);
    assert_eq!(leading_token("GET".as_bytes()), 3);
    assert_eq!(leading_token("\tGET".as_bytes()), 0);
    assert_eq!(leading_token("a\r\nb c".as_bytes()), 4);
}

#[test]
fn trimming_takes_whitespace_from_both_ends() {
    assert_eq!(trim_ows("  a b \t".as_bytes()), "a b".as_bytes());
    assert_eq!(trim_ows("a".as_bytes()), "a".as_bytes());
    assert_eq!(trim_ows(" \t ".as_bytes()), "".as_bytes());
    assert_eq!(trim_ows("".as_bytes()), "".as_bytes());
    assert_eq!(trim_ows(" \r\n ".as_bytes()), "\r\n".as_bytes());
}

#[test]
fn searching_for_bytes() {
    assert!(contains_byte("a:b".as_bytes(), COLON));
    assert!(!contains_byte("ab".as_bytes(), COLON));
    assert!(!contains_byte("".as_bytes(), COLON));
    assert!(contains_ows("a b".as_bytes()));
    assert!(contains_ows("ab\t".as_bytes()));
    assert!(!contains_ows("a\r\nb".as_bytes()));
}

#[test]
fn comparing_bytes() {
    assert!(bytes_eq("GET".as_bytes(), "GET".as_bytes()));
    assert!(!bytes_eq("GET".as_bytes(), "get".as_bytes()));
    assert!(!bytes_eq("GET".as_bytes(), "GETS".as_bytes()));
    assert!(bytes_eq("".as_bytes(), "".as_bytes()));
    assert!(starts_with("/echo/abc".as_bytes(), "/echo/".as_bytes()));
    assert!(starts_with("/echo/".as_bytes(), "/echo/".as_bytes()));
    assert!(!starts_with("/echo".as_bytes(), "/echo/".as_bytes()));
    assert!(starts_with("x".as_bytes(), "".as_bytes()));
    assert!(eq_ignore_case("User-Agent".as_bytes(), "uSER-aGENT".as_bytes()));
    assert!(!eq_ignore_case("User-Agent".as_bytes(), "User_Agent".as_bytes()));
    assert!(!eq_ignore_case("[".as_bytes(), "{".as_bytes()));
    assert!(!eq_ignore_case("@".as_bytes(), "`".as_bytes()));
}
