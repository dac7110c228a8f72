use csv::StringRecord;
use text_tools::extract::{extract_bytes, extract_chars, extract_fields, select_bytes, select_text};

#[test]
fn test_extract_fields() {
    let rec = StringRecord::from(vec!["Captain", "Sham", "12345"]);
    assert_eq!(extract_fields(&rec, &[0..1]), &["Captain"]);
    assert_eq!(extract_fields(&rec, &[1..2]), &["Sham"]);
    assert_eq!(extract_fields(&rec, &[0..1, 2..3]), &["Captain", "12345"]);
    assert_eq!(extract_fields(&rec, &[0..1, 3..4]), &["Captain"]);
    assert_eq!(extract_fields(&rec, &[1..2, 0..1]), &["Sham", "Captain"]);
}

#[test]
fn test_extract_chars() {
    assert_eq!(extract_chars("", &[0..1]), "".to_string());
    assert_eq!(extract_chars("ábc", &[0..1]), "á".to_string());
    assert_eq!(extract_chars("ábc", &[0..1, 2..3]), "ác".to_string());
    assert_eq!(extract_chars("ábc", &[0..3]), "ábc".to_string());
    assert_eq!(extract_chars("ábc", &[2..3, 1..2]), "cb".to_string());
    assert_eq!(extract_chars("ábc", &[0..1, 1..2, 4..5]), "áb".to_string());
}

#[test]
fn test_extract_bytes() {
    assert_eq!(extract_bytes("ábc", &[0..1]), "�".to_string());
    assert_eq!(extract_bytes("ábc", &[0..2]), "á".to_string());
    assert_eq!(extract_bytes("ábc", &[0..3]), "áb".to_string());
    assert_eq!(extract_bytes("ábc", &[0..4]), "ábc".to_string());
    assert_eq!(extract_bytes("ábc", &[3..4, 2..3]), "cb".to_string());
    assert_eq!(extract_bytes("ábc", &[0..2, 5..6]), "á".to_string());
}

#[test]
fn fields_are_clipped_and_repeated() {
    let rec = StringRecord::from(vec!["Captain", "Sham", "12345"]);
    assert_eq!(extract_fields(&rec, &[1..10]), &["Sham", "12345"]);
    assert_eq!(extract_fields(&rec, &[0..3]), &["Captain", "Sham", "12345"]);
    assert_eq!(
        extract_fields(&rec, &[0..2, 0..2, 1..2]),
        &["Captain", "Sham", "Captain", "Sham", "Sham"]
    );
    assert_eq!(extract_fields(&rec, &[3..usize::MAX]), Vec::<String>::new());
    assert_eq!(extract_fields(&rec, &[]), Vec::<String>::new());
    assert_eq!(extract_fields(&rec, &[2..1]), Vec::<String>::new());
    let empty = StringRecord::new();
    assert_eq!(extract_fields(&empty, &[0..1]), Vec::<String>::new());
}

#[test]
fn chars_count_grapheme_clusters() {
    let line = "a\u{310}e\u{301}o\u{308}\u{332}";
    assert_eq!(extract_chars(line, &[1..2]), "e\u{301}");
    assert_eq!(extract_chars(line, &[2..3, 0..1]), "o\u{308}\u{332}a\u{310}");
    assert_eq!(extract_chars("a\r\nb", &[1..2]), "\r\n");
    assert_eq!(extract_chars("ábc", &[1..10]), "bc");
    assert_eq!(extract_chars("ábc", &[3..4]), "");
    assert_eq!(extract_chars("ábc", &[0..1, 0..1]), "áá");
    assert_eq!(extract_chars("ábc", &[0..usize::MAX]), "ábc");
}

#[test]
fn bytes_are_joined_before_they_are_decoded() {
    assert_eq!(extract_bytes("ábc", &[0..1, 1..2]), "á");
    assert_eq!(extract_bytes("ábc", &[1..2, 0..1]), "��");
    assert_eq!(extract_bytes("ábc", &[1..2]), "�");
}

#[test]
fn bytes_are_clipped_to_the_line() {
    assert_eq!(extract_bytes("ábc", &[0..10]), "ábc");
    assert_eq!(extract_bytes("ábc", &[2..100]), "bc");
    assert_eq!(extract_bytes("ábc", &[4..5]), "");
    assert_eq!(extract_bytes("ábc", &[9..usize::MAX]), "");
    assert_eq!(extract_bytes("", &[0..1]), "");
    assert_eq!(extract_bytes("ábc", &[]), "");
    assert_eq!(extract_bytes("ábc", &[2..3, 2..3]), "bb");
}

#[test]
fn select_bytes_takes_slices_in_list_order() {
    let bytes = [10u8, 20, 30, 40];
    assert_eq!(select_bytes(&bytes, &[0..1, 3..4]), vec![10, 40]);
    assert_eq!(select_bytes(&bytes, &[2..9, 0..2]), vec![30, 40, 10, 20]);
    assert_eq!(select_bytes(&bytes, &[4..5]), Vec::<u8>::new());
    assert_eq!(select_bytes(&bytes, &[3..1]), Vec::<u8>::new());
    assert_eq!(select_bytes(&[], &[0..1]), Vec::<u8>::new());
}

#[test]
fn select_text_joins_the_selected_parts() {
    let parts = ["ab", "", "cde", "f"];
    assert_eq!(select_text(&parts, &[2..3, 0..1]), "cdeab");
    assert_eq!(select_text(&parts, &[0..4]), "abcdef");
    assert_eq!(select_text(&parts, &[3..8, 3..4]), "ff");
    assert_eq!(select_text(&parts, &[1..2]), "");
    assert_eq!(select_text(&parts, &[7..8]), "");
}
