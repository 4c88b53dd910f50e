use ap_scanner::reading_id::ReadingID;

#[test]
fn fresh_ids_are_accepted() {
    let id = ReadingID::new();
    let text = id.as_str().to_string();
    assert_eq!(text.len(), 36);
    for (i, c) in text.chars().enumerate() {
        if i == 8 || i == 13 || i == 18 || i == 23 {
            assert_eq!(c, '-');
        } else {
            assert!(c.is_ascii_digit() || ('a'..='f').contains(&c));
        }
    }
    assert_eq!(text.chars().nth(14), Some('4'));
    assert!("89ab".contains(text.chars().nth(19).unwrap()));
    assert!(ReadingID::from_param(&text).is_ok());
    assert_ne!(ReadingID::new().as_str(), text);
}

#[test]
fn ids_accept_letters_digits_hyphens() {
    let id = ReadingID::from_param("Scan-2024-abc").ok().unwrap();
    assert_eq!(id.as_str(), "Scan-2024-abc");
    assert!(ReadingID::from_param("").is_ok());
}

#[test]
fn ids_reject_other_characters() {
    assert_eq!(ReadingID::from_param("../etc").err(), Some("../etc"));
    assert_eq!(ReadingID::from_param("a b").err(), Some("a b"));
    assert_eq!(ReadingID::from_param("scan_1").err(), Some("scan_1"));
    assert_eq!(ReadingID::from_param("café").err(), Some("café"));
}

#[test]
fn path_under_upload() {
    let id = ReadingID::from_param("abc-123").ok().unwrap();
    assert_eq!(id.path(), "upload/abc-123.json");
}
