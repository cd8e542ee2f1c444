use yek::{has_binary_extension, is_text_content, is_text_file};

#[test]
fn built_in_extensions_are_binary() {
    for ext in ["jpg", "png", "pdf", "exe", "zip", "so", "o", "a", "7z", "woff2", "cpl"] {
        assert!(has_binary_extension(ext, &[]), "{}", ext);
    }
    for ext in ["txt", "rs", "md", "toml", "", "jpgx", ".jpg"] {
        assert!(!has_binary_extension(ext, &[]), "{}", ext);
    }
}

#[test]
fn extension_is_compared_in_lower_case() {
    assert!(has_binary_extension("JPG", &[]));
    assert!(has_binary_extension("Png", &[]));
    assert!(has_binary_extension("ÄB", &[".äb".to_string()]));
    assert!(has_binary_extension("ÄB", &["äb".to_string()]));
    assert!(!has_binary_extension("äb", &[".ÄB".to_string()]));
    assert!(!has_binary_extension("äb", &["ÄB".to_string()]));
}

#[test]
fn user_extensions_count_with_or_without_dot() {
    let user = vec![".dat2".to_string(), "raw2".to_string()];
    assert!(has_binary_extension("dat2", &user));
    assert!(has_binary_extension("raw2", &user));
    assert!(has_binary_extension("RAW2", &user));
    assert!(!has_binary_extension("txt", &user));
    assert!(!has_binary_extension("raw22", &user));
    assert!(!has_binary_extension("aw2", &user));
}

#[test]
fn file_with_a_user_extension_is_binary() {
    let user = vec!["xyz".to_string()];
    assert!(has_binary_extension("xyz", &user));
    assert!(!is_text_file(Some("xyz"), &user, Some(b"abc")));
    assert!(!is_text_file(Some("xyz"), &user, None));
    assert!(!is_text_file(Some("XYZ"), &user, Some(b"abc")));
    assert!(is_text_file(Some("xyz"), &[], Some(b"abc")));
    assert!(is_text_file(Some("xy"), &user, Some(b"abc")));
}

#[test]
fn built_in_extensions_count_with_their_dot_only() {
    assert!(!has_binary_extension(".jpg", &[]));
    assert!(has_binary_extension("jpg", &[]));
}

#[test]
fn binary_extension_decides_without_the_content() {
    let text = b"plain text".to_vec();
    assert!(!is_text_file(Some("jpg"), &[], Some(&text)));
    assert!(!is_text_file(Some("jpg"), &[], None));
    assert!(!is_text_file(Some("jpg"), &[], Some(&[0xFF, 0xD8, 0xFF])));
    assert!(is_text_file(Some("txt"), &[], Some(&text)));
    assert!(is_text_file(None, &[], Some(&text)));
}

#[test]
fn unreadable_file_is_not_text() {
    assert!(!is_text_file(Some("txt"), &[], None));
    assert!(!is_text_file(None, &[], None));
}

#[test]
fn zero_byte_makes_content_binary() {
    assert!(is_text_content(b""));
    assert!(is_text_content(b"hello"));
    assert!(!is_text_content(b"he\0llo"));
    assert!(!is_text_content(b"\0"));
    assert!(is_text_content(&[0xFF, 0xD8, 0xFF]));
    assert!(!is_text_file(Some("txt"), &[], Some(b"a\0b")));
}

#[test]
fn only_the_first_4096_bytes_are_scanned() {
    let mut bytes = vec![b'a'; 5000];
    assert!(is_text_content(&bytes));
    bytes[4096] = 0;
    assert!(is_text_content(&bytes));
    bytes[4999] = 0;
    assert!(is_text_content(&bytes));
    bytes[4095] = 0;
    assert!(!is_text_content(&bytes));
    let mut short = vec![b'a'; 4096];
    short[4095] = 0;
    assert!(!is_text_content(&short));
}
