//! Zero-copy views over UTF-8 text and in-place handles onto its characters.
//!
//! A view is a window over a base buffer that grows and shrinks one scalar
//! value at a time and always lands on scalar boundaries. A character handle
//! is a span that holds exactly one scalar value; the exclusive variant can
//! overwrite it with another scalar of the same encoded length, so the length
//! of the buffer never changes and it stays valid UTF-8.
//!
//! Shared views and handles borrow a `&str`. Exclusive ones borrow the bytes
//! of a text, as `&mut [u8]`, and ask that they are valid UTF-8.
pub mod chars;
pub mod in_place;
pub mod scan;
pub mod str_ext;
pub mod string_view;
pub mod utf8;
pub mod window;

pub use chars::{Char, CharMut, CharsHaveDifferentSizes, CharsInPlace, CharsInPlaceMut};
pub use in_place::{
    make_lowercase, make_uppercase, replace_in_place, replace_with_char, trim_matches_mut,
    trim_mut,
};
pub use str_ext::{span_idx, StrExt};
pub use string_view::{
    Base, BaseStringIsTooShort, StringView, StringViewMut, View, ViewIsTooShort, LEFT, RIGHT,
};
