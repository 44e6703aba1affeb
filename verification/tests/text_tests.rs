use liteparse::heading_text::normalize_outline_text;
use liteparse::paragraphs::begins_lowercase;
use liteparse::repetition::normalize_for_repetition;
use liteparse::tesseract::TesseractOcrEngine;
use liteparse::text::{byte_length, mostly_alphabetic};

#[test]
fn letters_outside_ascii_have_lower_case_too() {
    assert_eq!(normalize_for_repetition("\u{C9}COLE  No 12"), "\u{E9}cole no #");
    assert_eq!(normalize_outline_text("\u{C9}TAT Civil"), "\u{E9}tat civil");
    assert_eq!(TesseractOcrEngine::normalize_language("\u{212A}O"), "kor");
    assert!(begins_lowercase("\u{E9}cole"));
    assert!(!begins_lowercase("\u{C9}cole"));
}

#[test]
fn letters_outside_ascii_count_as_letters() {
    assert!(mostly_alphabetic("\u{E9}\u{E9}1"));
    assert!(!mostly_alphabetic("\u{E9}123"));
    assert_eq!(byte_length("a\u{E9}\u{20AC}\u{1F600}"), 10);
}
