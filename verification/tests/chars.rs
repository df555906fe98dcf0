use string_view::{
    Char, CharMut, CharsHaveDifferentSizes, CharsInPlace, CharsInPlaceMut, StrExt,
};

#[test]
fn chars_in_place() {
    let mut iter = "Hello".chars_in_place();

    assert_eq!(iter.next().unwrap(), "H");
    assert_eq!(iter.next().unwrap(), "e");
    assert_eq!(iter.next().unwrap(), "l");
    assert_eq!(iter.next().unwrap(), 'l');
    assert_eq!(iter.next().unwrap(), 'o');
}

#[test]
fn chars_in_place_mut() {
    let text: &mut [u8] = &mut String::from("Hello").into_bytes();

    let mut iter = CharsInPlaceMut::new(text);

    assert_eq!(iter.next().unwrap(), "H");
    assert_eq!(iter.next().unwrap(), "e");
    assert_eq!(iter.next().unwrap(), "l");
    assert_eq!(iter.next().unwrap(), 'l');
    assert_eq!(iter.next().unwrap(), 'o');
}

#[test]
fn chars_in_place_rev() {
    let mut iter = "Hello".chars_in_place();

    assert_eq!(iter.next_back().unwrap(), 'o');
    assert_eq!(iter.next_back().unwrap(), 'l');
    assert_eq!(iter.next_back().unwrap(), "l");
    assert_eq!(iter.next_back().unwrap(), "e");
    assert_eq!(iter.next_back().unwrap(), "H");
}

#[test]
fn chars_in_place_mut_rev() {
    let text: &mut [u8] = &mut String::from("Hello").into_bytes();

    let mut iter = CharsInPlaceMut::new(text);

    assert_eq!(iter.next_back().unwrap(), 'o');
    assert_eq!(iter.next_back().unwrap(), 'l');
    assert_eq!(iter.next_back().unwrap(), "l");
    assert_eq!(iter.next_back().unwrap(), "e");
    assert_eq!(iter.next_back().unwrap(), "H");
}

#[test]
fn char_equality() {
    let text = "aéa";
    let mut iter = text.chars_in_place();
    let first = iter.next().unwrap();
    let second = iter.next().unwrap();
    let third = iter.next().unwrap();
    assert!(first == third);
    assert!(first != second);
    assert!(second == 'é');
    assert!(second != 'e');
    assert!(second == "é");
    assert!(second != "e");
    assert!(second != "éa");
    assert!(first != "");
}

#[test]
fn char_mut_equality() {
    let mut text = String::from("aéa").into_bytes();
    let mut iter = CharsInPlaceMut::new(&mut text);
    let first = iter.next().unwrap();
    let second = iter.next().unwrap();
    let third = iter.next().unwrap();
    assert!(first == third);
    assert!(first != second);
    assert!(second == 'é');
    assert!(second != 'e');
    assert!(second != 'è');
    assert!(second == "é");
    assert!(second != "e");
    assert!(second != "éa");
    assert!(first != "");
    assert!(first == 'a');
}

#[test]
fn chars_in_place_ends_with_none() {
    let mut iter = CharsInPlace::new("ab");
    assert!(iter.next().is_some());
    assert!(iter.next_back().is_some());
    assert!(iter.next().is_none());
    assert!(iter.next_back().is_none());

    let mut empty = CharsInPlace::new("");
    assert!(empty.next().is_none());
    assert!(empty.next_back().is_none());
}

#[test]
fn chars_in_place_yields_every_scalar_in_order() {
    let text = "aß日𝄞!";
    let mut iter = text.chars_in_place();
    let mut seen = String::new();
    let mut count = 0;
    while let Some(ch) = iter.next() {
        assert_eq!(ch.as_str().chars().count(), 1);
        seen.push_str(ch.as_str());
        count += 1;
    }
    assert_eq!(count, 5);
    assert_eq!(seen, text);
}

#[test]
fn chars_in_place_back_yields_reverse_order() {
    let text = "aß日𝄞!";
    let mut iter = text.chars_in_place();
    let mut seen = Vec::new();
    while let Some(ch) = iter.next_back() {
        seen.push(ch.char());
    }
    assert_eq!(seen, vec!['!', '𝄞', '日', 'ß', 'a']);
    let forward: Vec<char> = text.chars().collect();
    let mut reversed = seen.clone();
    reversed.reverse();
    assert_eq!(reversed, forward);
}

#[test]
fn chars_in_place_from_both_ends_meet() {
    let mut iter = "日本語".chars_in_place();
    assert_eq!(iter.next().unwrap().char(), '日');
    assert_eq!(iter.next_back().unwrap().char(), '語');
    assert_eq!(iter.next().unwrap().as_str(), "本");
    assert!(iter.next_back().is_none());
    assert!(iter.next().is_none());
}

#[test]
fn chars_in_place_mut_handles_do_not_overlap() {
    let mut text = String::from("añ日𝄞").into_bytes();
    {
        let mut iter = CharsInPlaceMut::new(&mut text);
        let mut a = iter.next().unwrap();
        let mut last = iter.next_back().unwrap();
        let mut n = iter.next().unwrap();
        let mut han = iter.next_back().unwrap();
        assert!(iter.next().is_none());
        assert!(iter.next_back().is_none());
        assert_eq!(a.char(), 'a');
        assert_eq!(n.char(), 'ñ');
        assert_eq!(han.char(), '日');
        assert_eq!(last.char(), '𝄞');
        assert!(last.replace('𝄢').is_ok());
        assert!(han.replace('本').is_ok());
        assert!(n.replace('é').is_ok());
        assert!(a.replace('b').is_ok());
    }
    assert_eq!(String::from_utf8(text).unwrap(), "bé本𝄢");
}

#[test]
fn char_new_on_single_scalars() {
    for text in ["A", "é", "日", "𝄞", "\u{0}", "\u{10ffff}"] {
        let ch = Char::new(text);
        assert_eq!(ch.as_str(), text);
        assert_eq!(ch.char(), text.chars().next().unwrap());
        let tried = Char::try_new(text).unwrap();
        assert_eq!(tried.char(), text.chars().next().unwrap());
    }
    let ch = Char::new(&"Hello World"[3..4]);
    assert_eq!(ch.as_str(), "l");
}

#[test]
fn char_try_new_rejects_empty_and_longer_spans() {
    assert!(Char::try_new("").is_none());
    assert!(Char::try_new("Hello").is_none());
    assert!(Char::try_new(&"Hello World"[3..6]).is_none());
    assert!(Char::try_new("日本").is_none());
    assert!(Char::try_new("é ").is_none());
}

#[test]
fn char_mut_new_on_single_scalars() {
    for text in ["A", "é", "日", "𝄞", "\u{7f}", "\u{80}", "\u{7ff}", "\u{800}", "\u{ffff}", "\u{10000}"] {
        let mut bytes = String::from(text).into_bytes();
        let ch = CharMut::new(&mut bytes);
        assert_eq!(ch.char(), text.chars().next().unwrap());
        assert_eq!(ch.as_str(), text);
        assert_eq!(ch.as_char().char(), text.chars().next().unwrap());
        let mut again = String::from(text).into_bytes();
        assert!(CharMut::try_new(&mut again).is_some());
    }
}

#[test]
fn char_mut_try_new_rejects_what_is_not_one_scalar() {
    let mut empty: Vec<u8> = Vec::new();
    assert!(CharMut::try_new(&mut empty).is_none());
    let mut two = String::from("ab").into_bytes();
    assert!(CharMut::try_new(&mut two).is_none());
    let mut trailing = vec![0xc3, 0xa9, 0x20];
    assert!(CharMut::try_new(&mut trailing).is_none());
    let mut truncated = vec![0xe6, 0x97];
    assert!(CharMut::try_new(&mut truncated).is_none());
    let mut continuation = vec![0xa9];
    assert!(CharMut::try_new(&mut continuation).is_none());
    let mut overlong = vec![0xc0, 0x80];
    assert!(CharMut::try_new(&mut overlong).is_none());
    let mut overlong3 = vec![0xe0, 0x80, 0x80];
    assert!(CharMut::try_new(&mut overlong3).is_none());
    let mut surrogate = vec![0xed, 0xa0, 0x80];
    assert!(CharMut::try_new(&mut surrogate).is_none());
    let mut too_large = vec![0xf4, 0x90, 0x80, 0x80];
    assert!(CharMut::try_new(&mut too_large).is_none());
    let mut five = vec![0xf8, 0x88, 0x80, 0x80, 0x80];
    assert!(CharMut::try_new(&mut five).is_none());
    let mut bad_tail = vec![0xc3, 0x28];
    assert!(CharMut::try_new(&mut bad_tail).is_none());
    assert_eq!(bad_tail, vec![0xc3, 0x28]);
}

#[test]
fn char_mut_is_same_size() {
    let mut bytes = String::from("é").into_bytes();
    let ch = CharMut::new(&mut bytes);
    assert!(ch.is_same_size('ß'));
    assert!(ch.is_same_size('Ж'));
    assert!(!ch.is_same_size('e'));
    assert!(!ch.is_same_size('日'));
    assert!(!ch.is_same_size('𝄞'));
}

#[test]
fn char_mut_replace_same_size_changes_only_its_span() {
    let mut text = String::from("Hello").into_bytes();
    {
        let mut iter = CharsInPlaceMut::new(&mut text);
        iter.next();
        iter.next();
        let mut third = iter.next().unwrap();
        assert!(third.replace('-').is_ok());
        assert_eq!(third.char(), '-');
        assert_eq!(third.as_str(), "-");
    }
    assert_eq!(text, b"He-lo".to_vec());

    let mut wide = String::from("aЖb").into_bytes();
    {
        let mut iter = CharsInPlaceMut::new(&mut wide);
        iter.next();
        let mut mid = iter.next().unwrap();
        assert!(mid.replace('é').is_ok());
    }
    assert_eq!(String::from_utf8(wide).unwrap(), "aéb");
}

#[test]
fn char_mut_replace_other_size_changes_nothing() {
    let mut text = String::from("aЖb").into_bytes();
    {
        let mut iter = CharsInPlaceMut::new(&mut text);
        let mut first = iter.next().unwrap();
        assert!(matches!(first.replace('é'), Err(CharsHaveDifferentSizes)));
        assert_eq!(first.char(), 'a');
        let mut mid = iter.next().unwrap();
        assert!(matches!(mid.replace('x'), Err(CharsHaveDifferentSizes)));
        assert!(matches!(mid.replace('日'), Err(CharsHaveDifferentSizes)));
        assert_eq!(mid.char(), 'Ж');
    }
    assert_eq!(String::from_utf8(text).unwrap(), "aЖb");
}

#[test]
fn char_mut_replace_mapped() {
    let mut bytes = String::from("a").into_bytes();
    let mut ch = CharMut::new(&mut bytes);
    assert!(ch.replace_mapped('A', true).is_err());
    assert_eq!(ch.char(), 'a');
    assert!(ch.replace_mapped('é', false).is_err());
    assert_eq!(ch.char(), 'a');
    assert!(ch.replace_mapped('A', false).is_ok());
    assert_eq!(ch.char(), 'A');
}

#[test]
fn char_mut_make_uppercase_and_lowercase() {
    let mut text = String::from("Hello World").into_bytes();
    {
        let mut iter = CharsInPlaceMut::new(&mut text);
        while let Some(mut ch) = iter.next() {
            ch.make_uppercase().unwrap();
        }
    }
    assert_eq!(String::from_utf8(text.clone()).unwrap(), "HELLO WORLD");
    {
        let mut iter = CharsInPlaceMut::new(&mut text);
        while let Some(mut ch) = iter.next() {
            ch.make_lowercase().unwrap();
        }
    }
    assert_eq!(String::from_utf8(text).unwrap(), "hello world");
}

#[test]
fn char_mut_make_uppercase_fails_on_sharp_s() {
    let mut bytes = String::from("ß").into_bytes();
    {
        let mut ch = CharMut::new(&mut bytes);
        assert!(matches!(ch.make_uppercase(), Err(CharsHaveDifferentSizes)));
        assert_eq!(ch.char(), 'ß');
    }
    assert_eq!(String::from_utf8(bytes).unwrap(), "ß");
}

#[test]
fn char_mut_case_mapping_of_another_size_fails() {
    // U+0131 (two bytes) has the uppercase mapping "I" (one byte).
    let mut bytes = String::from("ı").into_bytes();
    {
        let mut ch = CharMut::new(&mut bytes);
        assert!(ch.make_uppercase().is_err());
    }
    assert_eq!(String::from_utf8(bytes).unwrap(), "ı");
    // U+0130 has a lowercase mapping of two characters.
    let mut dotted = String::from("İ").into_bytes();
    {
        let mut ch = CharMut::new(&mut dotted);
        assert!(ch.make_lowercase().is_err());
    }
    assert_eq!(String::from_utf8(dotted).unwrap(), "İ");
}

#[test]
fn char_mut_as_str_mut_hands_out_the_span() {
    let mut bytes = String::from("é").into_bytes();
    {
        let mut ch = CharMut::new(&mut bytes);
        let raw = ch.as_str_mut();
        assert_eq!(raw.len(), 2);
        raw[0] = 0xc3;
        raw[1] = 0xa8;
        assert_eq!(ch.char(), 'è');
    }
    assert_eq!(String::from_utf8(bytes).unwrap(), "è");
}

#[test]
fn chars_have_different_sizes_message() {
    assert_eq!(
        CharsHaveDifferentSizes.message(),
        "Unable to replace character because they have different sizes.Characters have to have the same size for in-place modification."
    );
}
