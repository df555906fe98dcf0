//! Method syntax on string slices for views and character iterators.
use crate::chars::CharsInPlace;
use crate::string_view::StringView;
use crate::utf8::byte_len;
use crate::window::Window;
use vstd::prelude::*;
use vstd::utf8::*;

verus! {

/// Views and in-place character iterators on a string slice.
pub trait StrExt: View<V = Seq<char>> {
    /// The view of the whole string slice.
    fn view(&self) -> (v: StringView<'_>)
        ensures
            v.wf(),
            v.base() == View::view(self),
            v@ == Window::whole(View::view(self)),
    ;

    /// The view of the part of the string slice between two byte offsets
    /// that are scalar boundaries of it.
    fn view_part(&self, start_idx: usize, end_idx: usize) -> (v: StringView<'_>)
        requires
            start_idx <= end_idx <= byte_len(View::view(self)),
            is_char_boundary(encode_utf8(View::view(self)), start_idx as int),
            is_char_boundary(encode_utf8(View::view(self)), end_idx as int),
        ensures
            v.wf(),
            v.base() == View::view(self),
            v@.base() == View::view(self),
            byte_len(v@.left) == start_idx,
            byte_len(v@.left + v@.text) == end_idx,
    ;

    /// The iterator over the characters of the string slice, in place.
    fn chars_in_place(&self) -> (it: CharsInPlace<'_>)
        ensures
            it@ == View::view(self),
    ;
}

impl StrExt for str {
    fn view(&self) -> (v: StringView<'_>) {
        StringView::new(self)
    }

    fn view_part(&self, start_idx: usize, end_idx: usize) -> (v: StringView<'_>) {
        StringView::new_part(self, start_idx, end_idx)
    }

    fn chars_in_place(&self) -> (it: CharsInPlace<'_>) {
        CharsInPlace::new(self)
    }
}

/// Start and end byte indices of a span inside a base, both given by the
/// address of their first byte and their length; `None` where the start or
/// the end of the span does not lie at a byte of the base.
pub fn span_idx(base_start: usize, base_len: usize, span_start: usize, span_len: usize) -> (r:
    Option<(usize, usize)>)
    requires
        base_start + base_len <= usize::MAX,
        span_start + span_len <= usize::MAX,
    ensures
        r is Some <==> base_start <= span_start < base_start + base_len && base_start <= span_start
            + span_len < base_start + base_len,
        r matches Some(idx) ==> idx.0 == span_start - base_start && idx.1 == span_start + span_len
            - base_start,
{
    let base_end = base_start + base_len;
    let span_end = span_start + span_len;
    if base_start <= span_start && span_start < base_end && base_start <= span_end && span_end
        < base_end {
        Some((span_start - base_start, span_end - base_start))
    } else {
        None
    }
}

} // verus!
