use string_view::{
    BaseStringIsTooShort, StrExt, StringView, StringViewMut, View, ViewIsTooShort, LEFT, RIGHT,
};

fn bytes_of(text: &str) -> Vec<u8> {
    String::from(text).into_bytes()
}

#[test]
fn view_of_whole_and_part() {
    let text = "Hello World";
    let view = text.view();
    assert_eq!(view.as_str(), "Hello World");
    assert_eq!(view.start(), 0);
    assert_eq!(view.end(), 11);

    let part = StringView::new_part(text, 6, 11);
    assert_eq!(part.as_str(), "World");
    assert_eq!(part.start(), 6);
    assert_eq!(part.end(), 11);

    let same = text.view_part(6, 11);
    assert_eq!(same.as_str(), "World");

    let empty = text.view_part(5, 5);
    assert_eq!(empty.as_str(), "");
    assert_eq!(empty.start(), 5);
    assert_eq!(empty.end(), 5);
}

#[test]
fn view_grows_and_shrinks() {
    let text = "Hello World";
    let mut view = text.view_part(6, 11);
    assert_eq!(view.as_str(), "World");

    view.extend_left(6);
    assert_eq!(view.as_str(), "Hello World");

    view.reduce_right_while(char::is_alphabetic);
    assert_eq!(view.as_str(), "Hello ");
}

#[test]
fn view_shrink_to_right_then_extend_left_while() {
    let text = "Hello World";
    let mut view = text.view();
    view.shrink_to_right();
    assert_eq!(view.as_str(), "");
    assert_eq!(view.start(), 11);
    assert_eq!(view.end(), 11);
    view.extend_left_while(char::is_alphabetic);
    assert_eq!(view.as_str(), "World");
}

#[test]
fn view_shrink_to_left_then_extend_right_while() {
    let text = "Hello World";
    let mut view = text.view();
    view.shrink_to_left();
    assert_eq!(view.as_str(), "");
    assert_eq!(view.start(), 0);
    assert_eq!(view.end(), 0);
    view.extend_right_while(char::is_alphabetic);
    assert_eq!(view.as_str(), "Hello");
}

#[test]
fn view_extend_right() {
    let text = "Hello World";
    let mut view = text.view_part(0, 5);
    assert_eq!(view.as_str(), "Hello");
    view.extend_right(6);
    assert_eq!(view.as_str(), "Hello World");
}

#[test]
fn view_try_extend_right() {
    let text = "Hello World";
    let mut view = text.view_part(0, 5);

    let err = view.try_extend_right(4);
    assert!(err.is_ok());
    assert_eq!(view.as_str(), "Hello Wor");

    let err = view.try_extend_right(10);
    assert!(matches!(err, Err(BaseStringIsTooShort::<RIGHT>)));
    assert_eq!(view.as_str(), "Hello Wor");
    assert_eq!(view.start(), 0);
    assert_eq!(view.end(), 9);

    assert!(view.try_extend_right(3).is_err());
    assert!(view.try_extend_right(2).is_ok());
    assert_eq!(view.as_str(), "Hello World");
    assert!(view.try_extend_right(1).is_err());
    assert!(view.try_extend_right(0).is_ok());
}

#[test]
fn view_extend_right_while() {
    let text = "Hello World !!!";
    let mut view = text.view_part(0, 2);
    assert_eq!(view.as_str(), "He");

    view.extend_right_while(|ch| ch != ' ');
    assert_eq!(view.as_str(), "Hello");

    view.extend_right(1);
    view.extend_right_while(|ch| ch != ' ');
    assert_eq!(view.as_str(), "Hello World");
}

#[test]
fn view_reduce_right() {
    let text = "Hello World";
    let mut view = text.view();
    view.reduce_right(6);
    assert_eq!(view.as_str(), "Hello");
}

#[test]
fn view_try_reduce_right() {
    let text = "One and only Hello World";
    let mut view = text.view_part(13, 24);
    assert_eq!(view.as_str(), "Hello World");

    let result = view.try_reduce_right(6);
    assert!(result.is_ok());
    assert_eq!(view.as_str(), "Hello");

    let result = view.try_reduce_right(10);
    assert!(matches!(result, Err(ViewIsTooShort::<RIGHT>)));
    assert_eq!(view.as_str(), "Hello");

    assert!(view.try_reduce_right(6).is_err());
    assert!(view.try_reduce_right(5).is_ok());
    assert_eq!(view.as_str(), "");
    assert_eq!(view.start(), 13);
    assert_eq!(view.end(), 13);
}

#[test]
fn view_reduce_right_while() {
    let text = "Hello World !!!";
    let mut view = text.view();

    view.reduce_right_while(|ch| ch != ' ');
    assert_eq!(view.as_str(), "Hello World ");

    view.reduce_right(1);
    view.reduce_right_while(|ch| ch != ' ');
    assert_eq!(view.as_str(), "Hello ");
}

#[test]
fn view_extend_left() {
    let text = "Hello World";
    let mut view = text.view_part(6, 11);
    view.extend_left(6);
    assert_eq!(view.as_str(), "Hello World");
}

#[test]
fn view_try_extend_left() {
    let text = "Hello World";
    let mut view = text.view_part(6, 11);

    let err = view.try_extend_left(4);
    assert!(err.is_ok());
    assert_eq!(view.as_str(), "llo World");

    let err = view.try_extend_left(10);
    assert!(matches!(err, Err(BaseStringIsTooShort::<LEFT>)));
    assert_eq!(view.as_str(), "llo World");
    assert_eq!(view.start(), 2);
    assert_eq!(view.end(), 11);
}

#[test]
fn view_extend_left_while() {
    let text = "Hello World !!!";
    let mut view = text.view_part(14, 15);
    assert_eq!(view.as_str(), "!");

    view.extend_left_while(|ch| ch != ' ');
    assert_eq!(view.as_str(), "!!!");

    view.extend_left(1);
    view.extend_left_while(|ch| ch != ' ');
    assert_eq!(view.as_str(), "World !!!");
}

#[test]
fn view_reduce_left() {
    let text = "Hello World";
    let mut view = text.view();
    view.reduce_left(6);
    assert_eq!(view.as_str(), "World");
}

#[test]
fn view_try_reduce_left() {
    let text = "One and only Hello World";
    let mut view = text.view_part(13, 24);

    let result = view.try_reduce_left(6);
    assert!(result.is_ok());
    assert_eq!(view.as_str(), "World");

    let result = view.try_reduce_left(10);
    assert!(matches!(result, Err(ViewIsTooShort::<LEFT>)));
    assert_eq!(view.as_str(), "World");
    assert_eq!(view.start(), 19);
    assert_eq!(view.end(), 24);
}

#[test]
fn view_reduce_left_while() {
    let text = "Hello World !!!";
    let mut view = text.view();

    view.reduce_left_while(|ch| ch != ' ');
    assert_eq!(view.as_str(), " World !!!");

    view.reduce_left(1);
    view.reduce_left_while(|ch| ch != ' ');
    assert_eq!(view.as_str(), " !!!");
}

#[test]
fn view_trim_while() {
    let text = String::from("  \n   Hello  \n \t  ");
    let mut view = text.view();
    view.trim_while(char::is_whitespace);
    assert_eq!(view.as_str(), "Hello");
    assert_eq!(view.start(), 6);
    assert_eq!(view.end(), 11);
}

#[test]
fn view_trim_while_takes_the_left_first() {
    let text = "      ";
    let mut view = text.view_part(1, 4);
    view.trim_while(char::is_whitespace);
    assert_eq!(view.as_str(), "");
    assert_eq!(view.start(), 4);
    assert_eq!(view.end(), 4);

    let dashes = "--Hello--World----";
    let mut view = dashes.view();
    view.trim_while(|ch| ch == '-');
    assert_eq!(view.as_str(), "Hello--World");
}

#[test]
fn view_while_with_no_match_is_a_no_op() {
    let text = "Hello World";
    let mut view = text.view_part(2, 5);
    view.extend_right_while(|_| false);
    view.extend_left_while(|_| false);
    view.reduce_right_while(|_| false);
    view.reduce_left_while(|_| false);
    view.trim_while(|_| false);
    assert_eq!(view.as_str(), "llo");
    assert_eq!(view.start(), 2);
    assert_eq!(view.end(), 5);
}

#[test]
fn view_while_stops_at_the_ends_of_the_base() {
    let text = "Hello World";
    let mut view = text.view_part(2, 5);
    view.extend_right_while(|_| true);
    assert_eq!(view.as_str(), "llo World");
    view.extend_left_while(|_| true);
    assert_eq!(view.as_str(), "Hello World");
    view.reduce_left_while(|_| true);
    assert_eq!(view.as_str(), "");
    assert_eq!(view.start(), 11);
}

#[test]
fn view_steps_over_whole_scalars() {
    let text = "añ日𝄞z";
    let mut view = text.view();
    assert_eq!(view.end(), 11);
    view.shrink_to_left();
    view.extend_right(1);
    assert_eq!((view.start(), view.end()), (0, 1));
    view.extend_right(1);
    assert_eq!((view.start(), view.end()), (0, 3));
    assert_eq!(view.as_str(), "añ");
    view.extend_right(1);
    assert_eq!((view.start(), view.end()), (0, 6));
    view.extend_right(1);
    assert_eq!((view.start(), view.end()), (0, 10));
    assert_eq!(view.as_str(), "añ日𝄞");
    view.reduce_left(2);
    assert_eq!((view.start(), view.end()), (3, 10));
    assert_eq!(view.as_str(), "日𝄞");
    view.reduce_right(1);
    assert_eq!((view.start(), view.end()), (3, 6));
    assert_eq!(view.as_str(), "日");
    view.extend_left(1);
    assert_eq!((view.start(), view.end()), (1, 6));
    assert_eq!(view.as_str(), "ñ日");
    assert!(view.try_extend_left(2).is_err());
    assert_eq!((view.start(), view.end()), (1, 6));
    assert!(view.try_extend_right(3).is_err());
    assert_eq!((view.start(), view.end()), (1, 6));
    assert!(view.try_reduce_left(3).is_err());
    assert!(view.try_reduce_right(3).is_err());
    assert_eq!(view.as_str(), "ñ日");
}

#[test]
fn view_extend_then_reduce_restores_the_bounds() {
    let text = "añ日𝄞z-añ日𝄞z";
    for n in 0..=5usize {
        let mut view = text.view_part(6, 12);
        view.extend_right(n);
        view.reduce_right(n);
        assert_eq!((view.start(), view.end()), (6, 12));
        view.extend_left(n.min(3));
        view.reduce_left(n.min(3));
        assert_eq!((view.start(), view.end()), (6, 12));
        assert_eq!(view.as_str(), "𝄞z-");
    }
}

#[test]
fn view_engine_on_bytes() {
    let base = "Hello World".as_bytes();
    let mut view = View::new_part(base, 6, 11);
    assert_eq!((view.start(), view.end()), (6, 11));
    assert!(view.try_extend_left(7).is_err());
    view.extend_left(6);
    assert_eq!((view.start(), view.end()), (0, 11));
    view.reduce_right_while(char::is_alphabetic);
    assert_eq!((view.start(), view.end()), (0, 6));
    view.shrink_to_right();
    assert_eq!((view.start(), view.end()), (6, 6));
    assert!(view.try_reduce_left(1).is_err());
    assert!(view.try_reduce_right(1).is_err());
    view.extend_right_while(|ch| ch != 'l');
    assert_eq!((view.start(), view.end()), (6, 9));
    view.reduce_left(1);
    view.reduce_right(1);
    assert_eq!((view.start(), view.end()), (7, 8));
    view.extend_left_while(|ch| ch != ' ');
    assert_eq!((view.start(), view.end()), (6, 8));
    view.reduce_left_while(|ch| ch == 'W');
    assert_eq!((view.start(), view.end()), (7, 8));
    view.extend_right(3);
    assert_eq!((view.start(), view.end()), (7, 11));
    view.shrink_to_left();
    assert_eq!((view.start(), view.end()), (7, 7));
    let mut whole = View::new(base);
    whole.trim_while(|ch| ch == 'H' || ch == 'd');
    assert_eq!((whole.start(), whole.end()), (1, 10));
}

#[test]
fn view_engine_on_a_string_slice() {
    let mut view = View::new("añ日𝄞z");
    assert_eq!((view.start(), view.end()), (0, 11));
    assert!(view.try_reduce_right(5).is_ok());
    assert_eq!((view.start(), view.end()), (0, 0));
    assert!(view.try_extend_right(6).is_err());
    assert!(view.try_extend_right(3).is_ok());
    assert_eq!((view.start(), view.end()), (0, 6));
    assert!(view.try_reduce_left(1).is_ok());
    assert_eq!((view.start(), view.end()), (1, 6));
    assert!(view.try_extend_left(2).is_err());
    assert!(view.try_extend_left(1).is_ok());
    assert_eq!((view.start(), view.end()), (0, 6));
}

#[test]
fn view_mut_of_whole_and_part() {
    let mut text = bytes_of("Hello World");
    let view = StringViewMut::new(&mut text);
    assert_eq!(view.as_str(), "Hello World");
    assert_eq!((view.start(), view.end()), (0, 11));

    let mut text = bytes_of("Hello World");
    let mut view = StringViewMut::new_part(&mut text, 6, 11);
    assert_eq!(view.as_str(), "World");

    view.extend_left(6);
    assert_eq!(view.as_str(), "Hello World");

    view.reduce_right_while(char::is_alphabetic);
    assert_eq!(view.as_str(), "Hello ");
}

#[test]
fn view_mut_shrink() {
    let mut text = bytes_of("Hello World");
    let mut view = StringViewMut::new(&mut text);
    view.shrink_to_right();
    view.extend_left_while(char::is_alphabetic);
    assert_eq!(view.as_str(), "World");

    let mut text = bytes_of("Hello World");
    let mut view = StringViewMut::new(&mut text);
    view.shrink_to_left();
    view.extend_right_while(char::is_alphabetic);
    assert_eq!(view.as_str(), "Hello");
}

#[test]
fn view_mut_extend_and_reduce() {
    let mut text = bytes_of("Hello World");
    let mut view = StringViewMut::new_part(&mut text, 0, 5);
    assert!(view.try_extend_right(4).is_ok());
    assert_eq!(view.as_str(), "Hello Wor");
    assert!(matches!(view.try_extend_right(10), Err(BaseStringIsTooShort::<RIGHT>)));
    assert_eq!(view.as_str(), "Hello Wor");
    view.extend_right(2);
    assert_eq!(view.as_str(), "Hello World");
    view.reduce_right(6);
    assert_eq!(view.as_str(), "Hello");
    assert!(matches!(view.try_reduce_right(6), Err(ViewIsTooShort::<RIGHT>)));
    assert!(view.try_reduce_right(1).is_ok());
    assert_eq!(view.as_str(), "Hell");
    view.reduce_left(1);
    assert_eq!(view.as_str(), "ell");
    assert!(matches!(view.try_reduce_left(4), Err(ViewIsTooShort::<LEFT>)));
    assert!(view.try_reduce_left(1).is_ok());
    assert_eq!(view.as_str(), "ll");
    assert!(matches!(view.try_extend_left(3), Err(BaseStringIsTooShort::<LEFT>)));
    assert!(view.try_extend_left(1).is_ok());
    view.extend_left(1);
    assert_eq!(view.as_str(), "Hell");
    assert_eq!((view.start(), view.end()), (0, 4));
}

#[test]
fn view_mut_while() {
    let mut text = bytes_of("Hello World !!!");
    let mut view = StringViewMut::new_part(&mut text, 0, 2);
    view.extend_right_while(|ch| ch != ' ');
    assert_eq!(view.as_str(), "Hello");
    view.extend_right(1);
    view.extend_right_while(|ch| ch != ' ');
    assert_eq!(view.as_str(), "Hello World");
    view.reduce_left_while(|ch| ch != ' ');
    assert_eq!(view.as_str(), " World");
    view.reduce_right_while(|ch| ch != 'o');
    assert_eq!(view.as_str(), " Wo");
    view.extend_left_while(|ch| ch != 'e');
    assert_eq!(view.as_str(), "llo Wo");
}

#[test]
fn view_mut_trim_while() {
    let mut text = bytes_of("  \n   Hello  \n \t  ");
    let mut view = StringViewMut::new(&mut text);
    view.trim_while(char::is_whitespace);
    assert_eq!(view.as_str(), "Hello");
}

#[test]
fn view_mut_as_str_mut_writes_through() {
    let mut text = bytes_of("Hello World");
    {
        let mut view = StringViewMut::new_part(&mut text, 6, 11);
        assert_eq!(view.as_str(), "World");
        {
            let span = view.as_str_mut();
            let mut chars = string_view::CharsInPlaceMut::new(span);
            chars.next();
            chars.next();
            chars.next();
            let mut fourth = chars.next().unwrap();
            fourth.replace('L').unwrap();
        }
        assert_eq!(view.as_str(), "WorLd");
    }
    assert_eq!(String::from_utf8(text).unwrap(), "Hello WorLd");
}

#[test]
fn span_idx_inside_and_outside() {
    assert_eq!(string_view::span_idx(1000, 11, 1000, 1), Some((0, 1)));
    assert_eq!(string_view::span_idx(1000, 11, 1001, 1), Some((1, 2)));
    assert_eq!(string_view::span_idx(1000, 11, 1003, 4), Some((3, 7)));
    assert_eq!(string_view::span_idx(1000, 11, 1009, 1), Some((9, 10)));
    assert_eq!(string_view::span_idx(1000, 11, 1010, 1), None);
    assert_eq!(string_view::span_idx(1000, 11, 999, 1), None);
    assert_eq!(string_view::span_idx(1000, 11, 1011, 0), None);
    assert_eq!(string_view::span_idx(1000, 11, 2000, 1), None);
    assert_eq!(string_view::span_idx(1000, 0, 1000, 0), None);
    assert_eq!(string_view::span_idx(0, usize::MAX, usize::MAX - 2, 1), Some((usize::MAX - 2, usize::MAX - 1)));
}

#[test]
fn error_messages_name_the_side() {
    assert_eq!(
        BaseStringIsTooShort::<RIGHT>.message(),
        "Base String contains less characters than `n` to the right of the view"
    );
    assert_eq!(
        BaseStringIsTooShort::<LEFT>.message(),
        "Base String contains less characters than `n` to the left of the view"
    );
    assert_eq!(
        ViewIsTooShort::<RIGHT>.message(),
        "View contains less characters than `n` to the right of the view"
    );
    assert_eq!(
        ViewIsTooShort::<LEFT>.message(),
        "View contains less characters than `n` to the left of the view"
    );
    assert!(BaseStringIsTooShort::<RIGHT>.side());
    assert!(!ViewIsTooShort::<LEFT>.side());
}
