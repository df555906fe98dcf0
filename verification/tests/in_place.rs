use string_view::{
    make_lowercase, make_uppercase, replace_in_place, replace_with_char, trim_matches_mut,
    trim_mut, CharsHaveDifferentSizes,
};

fn bytes_of(text: &str) -> Vec<u8> {
    String::from(text).into_bytes()
}

fn text_of(bytes: Vec<u8>) -> String {
    String::from_utf8(bytes).unwrap()
}

#[test]
fn make_lowercase_ascii() {
    let mut text = bytes_of("HELLO World");
    make_lowercase(&mut text);
    assert_eq!(text_of(text), "hello world");
}

#[test]
fn make_lowercase_cyrillic() {
    let mut text = bytes_of("ПРИВЕТ Мир");
    make_lowercase(&mut text);
    assert_eq!(text_of(text), "привет мир");
}

#[test]
fn make_uppercase_ascii() {
    let mut text = bytes_of("Hello World");
    make_uppercase(&mut text);
    assert_eq!(text_of(text), "HELLO WORLD");
}

#[test]
fn make_uppercase_cyrillic() {
    let mut text = bytes_of("Привет мир");
    make_uppercase(&mut text);
    assert_eq!(text_of(text), "ПРИВЕТ МИР");
}

#[test]
fn make_uppercase_keeps_what_does_not_fit() {
    let mut text = bytes_of("straße ı");
    make_uppercase(&mut text);
    assert_eq!(text_of(text), "STRAßE ı");
    let mut empty = bytes_of("");
    make_uppercase(&mut empty);
    make_lowercase(&mut empty);
    assert_eq!(text_of(empty), "");
}

#[test]
fn make_lowercase_keeps_what_does_not_fit() {
    let mut text = bytes_of("İSTANBUL");
    make_lowercase(&mut text);
    assert_eq!(text_of(text), "İstanbul");
}

#[test]
fn replace_in_place_same_length() {
    let mut text = bytes_of("Hello World");
    assert!(replace_in_place(&mut text[6..11], "WORLD").is_ok());
    assert_eq!(text_of(text), "Hello WORLD");

    let mut text = bytes_of("Привет Мир");
    assert!(replace_in_place(&mut text[13..19], "Worlds").is_ok());
    assert_eq!(text_of(text), "Привет Worlds");
}

#[test]
fn replace_in_place_other_length_is_rejected() {
    let mut text = bytes_of("Hello World");
    let before = text.clone();
    let result = replace_in_place(&mut text[6..11], "Worlds");
    assert!(matches!(result, Err(CharsHaveDifferentSizes)));
    assert_eq!(text, before);
    assert!(replace_in_place(&mut text[6..11], "Mir").is_err());
    assert_eq!(text, before);
    assert!(replace_in_place(&mut text[0..0], "").is_ok());
    assert_eq!(text, before);
}

#[test]
fn replace_with_char_ascii() {
    let mut text = bytes_of(">>World<<");
    let len = text.len();
    replace_with_char(&mut text[2..len - 2], '*');
    assert_eq!(text_of(text), ">>*****<<");

    let mut text = bytes_of(">>Мир<<");
    let len = text.len();
    assert_eq!(len - 4, 6);
    replace_with_char(&mut text[2..len - 2], '*');
    assert_eq!(text_of(text), ">>******<<");
}

#[test]
fn replace_with_char_of_several_bytes() {
    let mut text = bytes_of(">>Мир<<");
    let len = text.len();
    replace_with_char(&mut text[2..len - 2], 'ж');
    assert_eq!(text_of(text), ">>жжж<<");

    let mut text = bytes_of("abcdef");
    replace_with_char(&mut text, '日');
    assert_eq!(text_of(text), "日日");

    let mut text = bytes_of("");
    replace_with_char(&mut text, '𝄞');
    assert_eq!(text_of(text), "");
}

#[test]
fn trim_matches_mut_dashes() {
    let mut text = bytes_of("--Hello--World----");
    {
        let part = trim_matches_mut(&mut text, |ch| ch == '-');
        assert_eq!(part, "Hello--World".as_bytes());
        make_uppercase(part);
    }
    assert_eq!(text_of(text), "--HELLO--WORLD----");
}

#[test]
fn trim_matches_mut_everything_and_nothing() {
    let mut text = bytes_of("----");
    assert_eq!(trim_matches_mut(&mut text, |ch| ch == '-').len(), 0);
    let mut text = bytes_of("Hello");
    assert_eq!(trim_matches_mut(&mut text, |ch| ch == '-'), "Hello".as_bytes());
    let mut text = bytes_of("");
    assert_eq!(trim_matches_mut(&mut text, |_| true).len(), 0);
}

#[test]
fn trim_mut_white_space() {
    let mut text = bytes_of("  Hello  World    ");
    {
        let part = trim_mut(&mut text);
        assert_eq!(part, "Hello  World".as_bytes());
        replace_with_char(part, '.');
    }
    assert_eq!(text_of(text), "  ............    ");

    let mut text = bytes_of("\u{2003}\t日本語\n\u{a0}");
    assert_eq!(trim_mut(&mut text), "日本語".as_bytes());
}
