//! Views: windows over a base buffer of UTF-8 text that grow and shrink by
//! whole scalar values. [`View`] holds the borrow of the base and does the
//! arithmetic on the two bounds; [`StringView`] is a view over a string
//! slice, [`StringViewMut`] one over bytes that it borrows exclusively and
//! hands on for writing.
use crate::scan::{advance, advance_while, retreat, retreat_while};
use crate::utf8::{
    byte_len, lemma_boundary_range, lemma_byte_len, lemma_join, lemma_splice,
    lemma_splits_boundary, splice, text_of,
};
use crate::window::Window;
use vstd::prelude::*;
use vstd::slice::slice_subrange;
use vstd::string::StringExecFns;
use vstd::utf8::*;
use vstd::view::View as _;

verus! {

/// Marks the right side of a view in an error.
pub const RIGHT: bool = true;

/// Marks the left side of a view in an error.
pub const LEFT: bool = false;

/// The base buffer holds fewer scalars on the side `SIDE` of the view than
/// the view was asked to grow by.
#[derive(Debug, Clone, Copy)]
pub struct BaseStringIsTooShort<const SIDE: bool>;

/// The view holds fewer scalars than it was asked to shrink by on the side
/// `SIDE`.
#[derive(Debug, Clone, Copy)]
pub struct ViewIsTooShort<const SIDE: bool>;

/// The name of a side of a view, as the messages of the errors spell it.
pub open spec fn side_text(side: bool) -> Seq<char> {
    if side == RIGHT {
        "right"@
    } else {
        "left"@
    }
}

/// The name of a side of a view, as the messages of the errors spell it.
pub fn side_name(side: bool) -> (r: &'static str)
    ensures
        r@ == side_text(side),
{
    if side == RIGHT {
        "right"
    } else {
        "left"
    }
}

impl<const SIDE: bool> BaseStringIsTooShort<SIDE> {
    /// The side of the view on which the base was too short.
    pub fn side(&self) -> (r: bool)
        ensures
            r == SIDE,
    {
        SIDE
    }

    /// What went wrong, in words.
    pub fn message(&self) -> (r: String)
        ensures
            r@ == "Base String contains less characters than `n` to the "@ + side_text(SIDE)
                + " of the view"@,
    {
        let mut text = String::from_str("Base String contains less characters than `n` to the ");
        text.append(side_name(SIDE));
        text.append(" of the view");
        text
    }
}

impl<const SIDE: bool> ViewIsTooShort<SIDE> {
    /// The side of the view on which it was too short.
    pub fn side(&self) -> (r: bool)
        ensures
            r == SIDE,
    {
        SIDE
    }

    /// What went wrong, in words.
    pub fn message(&self) -> (r: String)
        ensures
            r@ == "View contains less characters than `n` to the "@ + side_text(SIDE)
                + " of the view"@,
    {
        let mut text = String::from_str("View contains less characters than `n` to the ");
        text.append(side_name(SIDE));
        text.append(" of the view");
        text
    }
}

/// A borrowed buffer of UTF-8 text that a view can stand on.
pub trait Base {
    /// The bytes of the buffer.
    spec fn text(&self) -> Seq<u8>;

    /// The bytes of the buffer.
    fn text_bytes(&self) -> (r: &[u8])
        ensures
            r@ == self.text(),
    ;
}

impl<'a> Base for &'a str {
    open spec fn text(&self) -> Seq<u8> {
        encode_utf8((*self)@)
    }

    fn text_bytes(&self) -> (r: &[u8]) {
        self.as_bytes()
    }
}

impl<'a> Base for &'a [u8] {
    open spec fn text(&self) -> Seq<u8> {
        (*self)@
    }

    fn text_bytes(&self) -> (r: &[u8]) {
        *self
    }
}

impl<'a> Base for &'a mut [u8] {
    open spec fn text(&self) -> Seq<u8> {
        (*self)@
    }

    fn text_bytes(&self) -> (r: &[u8]) {
        &**self
    }
}

/// A window over a base buffer: the borrow of the base, and the two bounds
/// of the window as a start offset and a length in bytes.
pub struct View<T: Base> {
    pub base: T,
    pub view_start: usize,
    pub view_len: usize,
}

impl<T: Base> vstd::view::View for View<T> {
    type V = Window;

    /// The text of the base, cut at the two bounds.
    open spec fn view(&self) -> Window {
        Window {
            left: decode_utf8(self.base.text().subrange(0, self.view_start as int)),
            text: decode_utf8(
                self.base.text().subrange(self.view_start as int, self.view_start + self.view_len),
            ),
            right: decode_utf8(
                self.base.text().subrange(
                    self.view_start + self.view_len,
                    self.base.text().len() as int,
                ),
            ),
        }
    }
}

impl<T: Base> View<T> {
    /// Byte offset of the right bound.
    pub open spec fn spec_end(&self) -> int {
        self.view_start + self.view_len
    }

    /// The bounds lie inside the base, and neither of them inside a scalar:
    /// what lies left of the view, inside it and right of it is valid UTF-8.
    pub open spec fn wf(&self) -> bool {
        &&& self.view_start + self.view_len <= self.base.text().len() <= usize::MAX
        &&& valid_utf8(self.base.text().subrange(0, self.view_start as int))
        &&& valid_utf8(
            self.base.text().subrange(self.view_start as int, self.view_start + self.view_len),
        )
        &&& valid_utf8(
            self.base.text().subrange(
                self.view_start + self.view_len,
                self.base.text().len() as int,
            ),
        )
    }

    /// The base of a well-formed view is valid UTF-8, its bounds are scalar
    /// boundaries of it, and they are the byte lengths of the text left of
    /// the view and of the text up to its end.
    pub proof fn lemma_bounds(&self)
        requires
            self.wf(),
        ensures
            valid_utf8(self.base.text()),
            is_char_boundary(self.base.text(), self.view_start as int),
            is_char_boundary(self.base.text(), self.spec_end()),
            self.view_start == byte_len(self@.left),
            self.spec_end() == byte_len(self@.left + self@.text),
            self.view_len == byte_len(self@.text),
            self@.base() == decode_utf8(self.base.text()),
    {
        let base = self.base.text();
        let s = self.view_start as int;
        let e = self.view_start + self.view_len;
        let n = base.len() as int;
        lemma_join(base, 0, s, e);
        lemma_join(base, 0, e, n);
        lemma_join(base, s, e, n);
        assert(base.subrange(0, n) =~= base);
        lemma_byte_len(base.subrange(0, s));
        lemma_byte_len(base.subrange(0, e));
        lemma_byte_len(base.subrange(s, e));
        lemma_splits_boundary(base, s);
        lemma_splits_boundary(base, e);
    }

    /// The bytes left of a well-formed view, inside it and right of it are
    /// the encodings of the three parts of its window.
    pub proof fn lemma_parts(&self)
        requires
            self.wf(),
        ensures
            self.base.text().subrange(0, self.view_start as int) == encode_utf8(self@.left),
            self.base.text().subrange(self.view_start as int, self.spec_end()) == encode_utf8(
                self@.text,
            ),
            self.base.text().subrange(self.spec_end(), self.base.text().len() as int)
                == encode_utf8(self@.right),
    {
        let base = self.base.text();
        lemma_byte_len(base.subrange(0, self.view_start as int));
        lemma_byte_len(base.subrange(self.view_start as int, self.spec_end()));
        lemma_byte_len(base.subrange(self.spec_end(), base.len() as int));
    }

    /// Two well-formed views of one base that show the same window have the
    /// same bounds.
    pub proof fn lemma_window_fixes_bounds(&self, other: &View<T>)
        requires
            self.wf(),
            other.wf(),
            self.base.text() == other.base.text(),
            self@ == other@,
        ensures
            self.view_start == other.view_start,
            self.view_len == other.view_len,
    {
        self.lemma_bounds();
        other.lemma_bounds();
    }

    /// A view that is grown by `n` scalars on the right and then shrunk by
    /// `n` on the right has its bounds back.
    pub proof fn lemma_extend_reduce_right(&self, grown: &View<T>, back: &View<T>, n: int)
        requires
            self.wf(),
            grown.wf(),
            back.wf(),
            grown.base.text() == self.base.text(),
            back.base.text() == self.base.text(),
            0 <= n <= self@.right.len(),
            grown@ == self@.extend_right(n),
            back@ == grown@.reduce_right(n),
        ensures
            back@ == self@,
            back.view_start == self.view_start,
            back.view_len == self.view_len,
    {
        crate::window::lemma_extend_reduce_right(self@, n);
        back.lemma_window_fixes_bounds(self);
    }

    /// A view that is grown by `n` scalars on the left and then shrunk by
    /// `n` on the left has its bounds back.
    pub proof fn lemma_extend_reduce_left(&self, grown: &View<T>, back: &View<T>, n: int)
        requires
            self.wf(),
            grown.wf(),
            back.wf(),
            grown.base.text() == self.base.text(),
            back.base.text() == self.base.text(),
            0 <= n <= self@.left.len(),
            grown@ == self@.extend_left(n),
            back@ == grown@.reduce_left(n),
        ensures
            back@ == self@,
            back.view_start == self.view_start,
            back.view_len == self.view_len,
    {
        crate::window::lemma_extend_reduce_left(self@, n);
        back.lemma_window_fixes_bounds(self);
    }

    /// The view of the whole of `base`.
    pub fn new(base: T) -> (r: View<T>)
        requires
            valid_utf8(base.text()),
        ensures
            r.wf(),
            r.base == base,
            r.view_start == 0,
            r.view_len == base.text().len(),
            r@ == Window::whole(decode_utf8(base.text())),
    {
        let view_len = base.text_bytes().len();
        proof {
            let b = base.text();
            assert(b.subrange(0, 0) =~= Seq::<u8>::empty());
            assert(b.subrange(b.len() as int, b.len() as int) =~= Seq::<u8>::empty());
            assert(b.subrange(0, b.len() as int) =~= b);
            assert(decode_utf8(Seq::<u8>::empty()) =~= Seq::<char>::empty());
        }
        View { base, view_start: 0, view_len }
    }

    /// The view of the bytes of `base` from `view_start` up to `view_end`,
    /// two scalar boundaries of `base`.
    pub fn new_part(base: T, view_start: usize, view_end: usize) -> (r: View<T>)
        requires
            valid_utf8(base.text()),
            view_start <= view_end <= base.text().len(),
            is_char_boundary(base.text(), view_start as int),
            is_char_boundary(base.text(), view_end as int),
        ensures
            r.wf(),
            r.base == base,
            r.view_start == view_start,
            r.view_len == view_end - view_start,
            r@ == (Window {
                left: decode_utf8(base.text().subrange(0, view_start as int)),
                text: decode_utf8(base.text().subrange(view_start as int, view_end as int)),
                right: decode_utf8(
                    base.text().subrange(view_end as int, base.text().len() as int),
                ),
            }),
    {
        proof {
            lemma_boundary_range(base.text(), view_start as int, view_end as int);
        }
        let _ = base.text_bytes().len();
        View { base, view_start, view_len: view_end - view_start }
    }

    /// Byte offset of the left bound in the base.
    pub fn start(&self) -> (r: usize)
        ensures
            r == self.view_start,
            self.wf() ==> r == byte_len(self@.left),
    {
        proof {
            if self.wf() {
                self.lemma_bounds();
            }
        }
        self.view_start
    }

    /// Byte offset of the right bound in the base.
    pub fn end(&self) -> (r: usize)
        requires
            self.view_start + self.view_len <= usize::MAX,
        ensures
            r == self.view_start + self.view_len,
            self.wf() ==> r == byte_len(self@.left + self@.text),
    {
        proof {
            if self.wf() {
                self.lemma_bounds();
            }
        }
        self.view_start + self.view_len
    }

    /// Collapses the view to the empty view at its right bound.
    pub fn shrink_to_right(&mut self)
        requires
            old(self).wf(),
        ensures
            final(self).wf(),
            final(self).base == old(self).base,
            final(self)@ == old(self)@.shrink_to_right(),
    {
        proof {
            let b = self.base.text();
            let e = self.view_start + self.view_len;
            lemma_join(b, 0, self.view_start as int, e);
            assert(b.subrange(e, e) =~= Seq::<u8>::empty());
            assert(decode_utf8(Seq::<u8>::empty()) =~= Seq::<char>::empty());
        }
        self.view_start += self.view_len;
        self.view_len = 0;
    }

    /// Collapses the view to the empty view at its left bound.
    pub fn shrink_to_left(&mut self)
        requires
            old(self).wf(),
        ensures
            final(self).wf(),
            final(self).base == old(self).base,
            final(self)@ == old(self)@.shrink_to_left(),
    {
        proof {
            let b = self.base.text();
            let s = self.view_start as int;
            lemma_join(b, s, self.view_start + self.view_len, b.len() as int);
            assert(b.subrange(s, s) =~= Seq::<u8>::empty());
            assert(decode_utf8(Seq::<u8>::empty()) =~= Seq::<char>::empty());
        }
        self.view_len = 0;
    }

    /// Grows the view by the first `n` scalars right of it.
    pub fn extend_right(&mut self, n: usize)
        requires
            old(self).wf(),
            n <= old(self)@.right.len(),
        ensures
            final(self).wf(),
            final(self).base == old(self).base,
            final(self)@ == old(self)@.extend_right(n as int),
    {
        let _ = self.try_extend_right(n);
    }

    /// Grows the view by the first `n` scalars right of it, or fails and
    /// leaves it as it is where the base holds fewer than `n` there.
    pub fn try_extend_right(&mut self, n: usize) -> (r: Result<(), BaseStringIsTooShort<RIGHT>>)
        requires
            old(self).wf(),
        ensures
            final(self).wf(),
            final(self).base == old(self).base,
            r is Ok <==> n <= old(self)@.right.len(),
            r is Ok ==> final(self)@ == old(self)@.extend_right(n as int),
            r is Err ==> *final(self) == *old(self),
    {
        let end = self.view_start + self.view_len;
        let base = self.base.text_bytes();
        match advance(base, end, base.len(), n) {
            Some(p) => {
                proof {
                    lemma_join(base@, self.view_start as int, end as int, p as int);
                }
                self.view_len = p - self.view_start;
                Ok(())
            },
            None => Err(BaseStringIsTooShort),
        }
    }

    /// Grows the view to the right over the scalars on which `func` answers
    /// `true`, up to the first on which it answers `false` or to the end of
    /// the base.
    pub fn extend_right_while<F>(&mut self, func: F) where F: Fn(char) -> bool
        requires
            old(self).wf(),
            forall|c: char| call_requires(func, (c,)),
        ensures
            final(self).wf(),
            final(self).base == old(self).base,
            old(self)@.extends_right_while(func, final(self)@),
    {
        let end = self.view_start + self.view_len;
        let base = self.base.text_bytes();
        let p = advance_while(base, end, base.len(), &func);
        proof {
            lemma_join(base@, self.view_start as int, end as int, p as int);
        }
        self.view_len = p - self.view_start;
    }

    /// Shrinks the view by its last `n` scalars.
    pub fn reduce_right(&mut self, n: usize)
        requires
            old(self).wf(),
            n <= old(self)@.text.len(),
        ensures
            final(self).wf(),
            final(self).base == old(self).base,
            final(self)@ == old(self)@.reduce_right(n as int),
    {
        let _ = self.try_reduce_right(n);
    }

    /// Shrinks the view by its last `n` scalars, or fails and leaves it as it
    /// is where it holds fewer than `n`.
    pub fn try_reduce_right(&mut self, n: usize) -> (r: Result<(), ViewIsTooShort<RIGHT>>)
        requires
            old(self).wf(),
        ensures
            final(self).wf(),
            final(self).base == old(self).base,
            r is Ok <==> n <= old(self)@.text.len(),
            r is Ok ==> final(self)@ == old(self)@.reduce_right(n as int),
            r is Err ==> *final(self) == *old(self),
    {
        let end = self.view_start + self.view_len;
        let base = self.base.text_bytes();
        match retreat(base, self.view_start, end, n) {
            Some(p) => {
                proof {
                    lemma_join(base@, p as int, end as int, base@.len() as int);
                }
                self.view_len = p - self.view_start;
                Ok(())
            },
            None => Err(ViewIsTooShort),
        }
    }

    /// Shrinks the view from the right over the scalars on which `func`
    /// answers `true`, back to the last on which it answers `false` or to the
    /// left bound.
    pub fn reduce_right_while<F>(&mut self, func: F) where F: Fn(char) -> bool
        requires
            old(self).wf(),
            forall|c: char| call_requires(func, (c,)),
        ensures
            final(self).wf(),
            final(self).base == old(self).base,
            old(self)@.reduces_right_while(func, final(self)@),
    {
        self.reduce_right_by(&func);
    }

    /// Grows the view by the last `n` scalars left of it.
    pub fn extend_left(&mut self, n: usize)
        requires
            old(self).wf(),
            n <= old(self)@.left.len(),
        ensures
            final(self).wf(),
            final(self).base == old(self).base,
            final(self)@ == old(self)@.extend_left(n as int),
    {
        let _ = self.try_extend_left(n);
    }

    /// Grows the view by the last `n` scalars left of it, or fails and leaves
    /// it as it is where the base holds fewer than `n` there.
    pub fn try_extend_left(&mut self, n: usize) -> (r: Result<(), BaseStringIsTooShort<LEFT>>)
        requires
            old(self).wf(),
        ensures
            final(self).wf(),
            final(self).base == old(self).base,
            r is Ok <==> n <= old(self)@.left.len(),
            r is Ok ==> final(self)@ == old(self)@.extend_left(n as int),
            r is Err ==> *final(self) == *old(self),
    {
        let end = self.view_start + self.view_len;
        let base = self.base.text_bytes();
        match retreat(base, 0, self.view_start, n) {
            Some(p) => {
                proof {
                    lemma_join(base@, p as int, self.view_start as int, end as int);
                }
                self.view_len = end - p;
                self.view_start = p;
                Ok(())
            },
            None => Err(BaseStringIsTooShort),
        }
    }

    /// Grows the view to the left over the scalars on which `func` answers
    /// `true`, back to the last on which it answers `false` or to the start
    /// of the base.
    pub fn extend_left_while<F>(&mut self, func: F) where F: Fn(char) -> bool
        requires
            old(self).wf(),
            forall|c: char| call_requires(func, (c,)),
        ensures
            final(self).wf(),
            final(self).base == old(self).base,
            old(self)@.extends_left_while(func, final(self)@),
    {
        let end = self.view_start + self.view_len;
        let base = self.base.text_bytes();
        let p = retreat_while(base, 0, self.view_start, &func);
        proof {
            lemma_join(base@, p as int, self.view_start as int, end as int);
        }
        self.view_len = end - p;
        self.view_start = p;
    }

    /// Shrinks the view by its first `n` scalars.
    pub fn reduce_left(&mut self, n: usize)
        requires
            old(self).wf(),
            n <= old(self)@.text.len(),
        ensures
            final(self).wf(),
            final(self).base == old(self).base,
            final(self)@ == old(self)@.reduce_left(n as int),
    {
        let _ = self.try_reduce_left(n);
    }

    /// Shrinks the view by its first `n` scalars, or fails and leaves it as
    /// it is where it holds fewer than `n`.
    pub fn try_reduce_left(&mut self, n: usize) -> (r: Result<(), ViewIsTooShort<LEFT>>)
        requires
            old(self).wf(),
        ensures
            final(self).wf(),
            final(self).base == old(self).base,
            r is Ok <==> n <= old(self)@.text.len(),
            r is Ok ==> final(self)@ == old(self)@.reduce_left(n as int),
            r is Err ==> *final(self) == *old(self),
    {
        let end = self.view_start + self.view_len;
        let base = self.base.text_bytes();
        match advance(base, self.view_start, end, n) {
            Some(p) => {
                proof {
                    lemma_join(base@, 0, self.view_start as int, p as int);
                }
                self.view_len = end - p;
                self.view_start = p;
                Ok(())
            },
            None => Err(ViewIsTooShort),
        }
    }

    /// Shrinks the view from the left over the scalars on which `func`
    /// answers `true`, up to the first on which it answers `false` or to the
    /// right bound.
    pub fn reduce_left_while<F>(&mut self, func: F) where F: Fn(char) -> bool
        requires
            old(self).wf(),
            forall|c: char| call_requires(func, (c,)),
        ensures
            final(self).wf(),
            final(self).base == old(self).base,
            old(self)@.reduces_left_while(func, final(self)@),
    {
        self.reduce_left_by(&func);
    }

    /// Shrinks the view from the left while `func` answers `true`, and then
    /// what is left of it from the right.
    pub fn trim_while<F: Fn(char) -> bool>(&mut self, func: F)
        requires
            old(self).wf(),
            forall|c: char| call_requires(func, (c,)),
        ensures
            final(self).wf(),
            final(self).base == old(self).base,
            old(self)@.trims_while(func, final(self)@),
    {
        self.reduce_left_by(&func);
        self.reduce_right_by(&func);
    }

    /// `reduce_left_while` with a predicate that the caller keeps.
    fn reduce_left_by<F: Fn(char) -> bool>(&mut self, func: &F)
        requires
            old(self).wf(),
            forall|c: char| call_requires(*func, (c,)),
        ensures
            final(self).wf(),
            final(self).base == old(self).base,
            old(self)@.reduces_left_while(*func, final(self)@),
    {
        let end = self.view_start + self.view_len;
        let base = self.base.text_bytes();
        let p = advance_while(base, self.view_start, end, func);
        proof {
            lemma_join(base@, 0, self.view_start as int, p as int);
        }
        self.view_len = end - p;
        self.view_start = p;
    }

    /// `reduce_right_while` with a predicate that the caller keeps.
    fn reduce_right_by<F: Fn(char) -> bool>(&mut self, func: &F)
        requires
            old(self).wf(),
            forall|c: char| call_requires(*func, (c,)),
        ensures
            final(self).wf(),
            final(self).base == old(self).base,
            old(self)@.reduces_right_while(*func, final(self)@),
    {
        let end = self.view_start + self.view_len;
        let base = self.base.text_bytes();
        let p = retreat_while(base, self.view_start, end, func);
        proof {
            lemma_join(base@, p as int, end as int, base@.len() as int);
        }
        self.view_len = p - self.view_start;
    }
}

/// A view into a string slice that it borrows: a window over the base text
/// that can grow up to the ends of the base and shrink down to nothing.
pub struct StringView<'a> {
    view: View<&'a str>,
}

impl<'a> vstd::view::View for StringView<'a> {
    type V = Window;

    /// The base text, cut at the two bounds of the view.
    closed spec fn view(&self) -> Window {
        self.view@
    }
}

impl<'a> StringView<'a> {
    /// Both bounds lie inside the base and on scalar boundaries of it.
    pub closed spec fn wf(&self) -> bool {
        self.view.wf()
    }

    /// The text of the base string slice.
    pub closed spec fn base(&self) -> Seq<char> {
        self.view.base@
    }

    /// The three parts of a well-formed view make up the text of its base.
    pub proof fn lemma_base(&self)
        requires
            self.wf(),
        ensures
            self@.base() == self.base(),
    {
        self.view.lemma_bounds();
        encode_utf8_decode_utf8(self.view.base@);
    }

    /// The view of the whole of `base`.
    pub fn new(base: &'a str) -> (r: Self)
        ensures
            r.wf(),
            r.base() == base@,
            r@ == Window::whole(base@),
    {
        proof {
            encode_utf8_valid_utf8(base@);
            encode_utf8_decode_utf8(base@);
        }
        StringView { view: View::new(base) }
    }

    /// The view of `base[view_start..view_end]`, two byte offsets that are
    /// scalar boundaries of `base`.
    pub fn new_part(base: &'a str, view_start: usize, view_end: usize) -> (r: Self)
        requires
            view_start <= view_end <= byte_len(base@),
            is_char_boundary(encode_utf8(base@), view_start as int),
            is_char_boundary(encode_utf8(base@), view_end as int),
        ensures
            r.wf(),
            r.base() == base@,
            r@.base() == base@,
            byte_len(r@.left) == view_start,
            byte_len(r@.left + r@.text) == view_end,
            r@ == (Window {
                left: decode_utf8(encode_utf8(base@).subrange(0, view_start as int)),
                text: decode_utf8(encode_utf8(base@).subrange(view_start as int, view_end as int)),
                right: decode_utf8(
                    encode_utf8(base@).subrange(view_end as int, byte_len(base@)),
                ),
            }),
    {
        proof {
            encode_utf8_valid_utf8(base@);
            encode_utf8_decode_utf8(base@);
        }
        let view = View::new_part(base, view_start, view_end);
        proof {
            view.lemma_bounds();
        }
        StringView { view }
    }

    /// Byte offset of the left bound in the base.
    pub fn start(&self) -> (r: usize)
        requires
            self.wf(),
        ensures
            r == byte_len(self@.left),
    {
        self.view.start()
    }

    /// Byte offset of the right bound in the base.
    pub fn end(&self) -> (r: usize)
        requires
            self.wf(),
        ensures
            r == byte_len(self@.left + self@.text),
            r == byte_len(self@.left) + byte_len(self@.text),
    {
        proof {
            self.view.lemma_bounds();
        }
        self.view.end()
    }

    /// The text that the view shows, as a slice of the base.
    pub fn as_str(&self) -> (r: &'a str)
        requires
            self.wf(),
        ensures
            r@ == self@.text,
    {
        let ghost b = encode_utf8(self.view.base@);
        let ghost s = self.view.view_start as int;
        let ghost e = self.view.view_start + self.view.view_len;
        proof {
            self.view.lemma_bounds();
        }
        let (_, tail) = self.view.base.split_at(self.view.view_start);
        proof {
            let t = encode_utf8(tail@);
            assert(t.subrange(0, e - s) =~= b.subrange(s, e));
            assert(t.subrange(e - s, t.len() as int) =~= b.subrange(e, b.len() as int));
            lemma_splits_boundary(t, e - s);
        }
        let (mid, _) = tail.split_at(self.view.view_len);
        proof {
            assert(encode_utf8(mid@) =~= b.subrange(s, e));
            encode_utf8_decode_utf8(mid@);
        }
        mid
    }

    /// Collapses the view to the empty view at its right bound.
    pub fn shrink_to_right(&mut self)
        requires
            old(self).wf(),
        ensures
            final(self).wf(),
            final(self)@ == old(self)@.shrink_to_right(),
            final(self).base() == old(self).base(),
    {
        self.view.shrink_to_right();
    }

    /// Collapses the view to the empty view at its left bound.
    pub fn shrink_to_left(&mut self)
        requires
            old(self).wf(),
        ensures
            final(self).wf(),
            final(self)@ == old(self)@.shrink_to_left(),
            final(self).base() == old(self).base(),
    {
        self.view.shrink_to_left();
    }

    /// Grows the view by the first `n` scalars right of it.
    pub fn extend_right(&mut self, n: usize)
        requires
            old(self).wf(),
            n <= old(self)@.right.len(),
        ensures
            final(self).wf(),
            final(self)@ == old(self)@.extend_right(n as int),
            final(self).base() == old(self).base(),
    {
        self.view.extend_right(n);
    }

    /// Grows the view by the first `n` scalars right of it, or fails and
    /// leaves it as it is where the base holds fewer than `n` there.
    pub fn try_extend_right(&mut self, n: usize) -> (r: Result<(), BaseStringIsTooShort<RIGHT>>)
        requires
            old(self).wf(),
        ensures
            final(self).wf(),
            r is Ok <==> n <= old(self)@.right.len(),
            r is Ok ==> final(self)@ == old(self)@.extend_right(n as int),
            r is Err ==> final(self)@ == old(self)@,
            final(self).base() == old(self).base(),
    {
        self.view.try_extend_right(n)
    }

    /// Grows the view to the right over the scalars on which `func` answers
    /// `true`, up to the first on which it answers `false` or to the end of
    /// the base.
    pub fn extend_right_while<F>(&mut self, func: F) where F: Fn(char) -> bool
        requires
            old(self).wf(),
            forall|c: char| call_requires(func, (c,)),
        ensures
            final(self).wf(),
            old(self)@.extends_right_while(func, final(self)@),
            final(self).base() == old(self).base(),
    {
        self.view.extend_right_while(func);
    }

    /// Shrinks the view by its last `n` scalars.
    pub fn reduce_right(&mut self, n: usize)
        requires
            old(self).wf(),
            n <= old(self)@.text.len(),
        ensures
            final(self).wf(),
            final(self)@ == old(self)@.reduce_right(n as int),
            final(self).base() == old(self).base(),
    {
        self.view.reduce_right(n);
    }

    /// Shrinks the view by its last `n` scalars, or fails and
    /// leaves it as it is where it holds fewer than `n`.
    pub fn try_reduce_right(&mut self, n: usize) -> (r: Result<(), ViewIsTooShort<RIGHT>>)
        requires
            old(self).wf(),
        ensures
            final(self).wf(),
            r is Ok <==> n <= old(self)@.text.len(),
            r is Ok ==> final(self)@ == old(self)@.reduce_right(n as int),
            r is Err ==> final(self)@ == old(self)@,
            final(self).base() == old(self).base(),
    {
        self.view.try_reduce_right(n)
    }

    /// Shrinks the view from the right over the scalars on which `func`
    /// answers `true`, back to the last on which it answers `false` or to the
    /// left bound.
    pub fn reduce_right_while<F>(&mut self, func: F) where F: Fn(char) -> bool
        requires
            old(self).wf(),
            forall|c: char| call_requires(func, (c,)),
        ensures
            final(self).wf(),
            old(self)@.reduces_right_while(func, final(self)@),
            final(self).base() == old(self).base(),
    {
        self.view.reduce_right_while(func);
    }

    /// Grows the view by the last `n` scalars left of it.
    pub fn extend_left(&mut self, n: usize)
        requires
            old(self).wf(),
            n <= old(self)@.left.len(),
        ensures
            final(self).wf(),
            final(self)@ == old(self)@.extend_left(n as int),
            final(self).base() == old(self).base(),
    {
        self.view.extend_left(n);
    }

    /// Grows the view by the last `n` scalars left of it, or fails and
    /// leaves it as it is where the base holds fewer than `n` there.
    pub fn try_extend_left(&mut self, n: usize) -> (r: Result<(), BaseStringIsTooShort<LEFT>>)
        requires
            old(self).wf(),
        ensures
            final(self).wf(),
            r is Ok <==> n <= old(self)@.left.len(),
            r is Ok ==> final(self)@ == old(self)@.extend_left(n as int),
            r is Err ==> final(self)@ == old(self)@,
            final(self).base() == old(self).base(),
    {
        self.view.try_extend_left(n)
    }

    /// Grows the view to the left over the scalars on which `func` answers
    /// `true`, back to the last on which it answers `false` or to the start
    /// of the base.
    pub fn extend_left_while<F>(&mut self, func: F) where F: Fn(char) -> bool
        requires
            old(self).wf(),
            forall|c: char| call_requires(func, (c,)),
        ensures
            final(self).wf(),
            old(self)@.extends_left_while(func, final(self)@),
            final(self).base() == old(self).base(),
    {
        self.view.extend_left_while(func);
    }

    /// Shrinks the view by its first `n` scalars.
    pub fn reduce_left(&mut self, n: usize)
        requires
            old(self).wf(),
            n <= old(self)@.text.len(),
        ensures
            final(self).wf(),
            final(self)@ == old(self)@.reduce_left(n as int),
            final(self).base() == old(self).base(),
    {
        self.view.reduce_left(n);
    }

    /// Shrinks the view by its first `n` scalars, or fails and
    /// leaves it as it is where it holds fewer than `n`.
    pub fn try_reduce_left(&mut self, n: usize) -> (r: Result<(), ViewIsTooShort<LEFT>>)
        requires
            old(self).wf(),
        ensures
            final(self).wf(),
            r is Ok <==> n <= old(self)@.text.len(),
            r is Ok ==> final(self)@ == old(self)@.reduce_left(n as int),
            r is Err ==> final(self)@ == old(self)@,
            final(self).base() == old(self).base(),
    {
        self.view.try_reduce_left(n)
    }

    /// Shrinks the view from the left over the scalars on which `func`
    /// answers `true`, up to the first on which it answers `false` or to the
    /// right bound.
    pub fn reduce_left_while<F>(&mut self, func: F) where F: Fn(char) -> bool
        requires
            old(self).wf(),
            forall|c: char| call_requires(func, (c,)),
        ensures
            final(self).wf(),
            old(self)@.reduces_left_while(func, final(self)@),
            final(self).base() == old(self).base(),
    {
        self.view.reduce_left_while(func);
    }

    /// Shrinks the view from the left while `func` answers `true`, and then
    /// what is left of it from the right.
    pub fn trim_while<F: Fn(char) -> bool>(&mut self, func: F)
        requires
            old(self).wf(),
            forall|c: char| call_requires(func, (c,)),
        ensures
            final(self).wf(),
            old(self)@.trims_while(func, final(self)@),
            final(self).base() == old(self).base(),
    {
        self.view.trim_while(func);
    }
}

/// A view into a buffer of UTF-8 text that it borrows exclusively, so that
/// the text it shows can be handed on for writing in place.
pub struct StringViewMut<'a> {
    pub view: View<&'a mut [u8]>,
}

impl<'a> vstd::view::View for StringViewMut<'a> {
    type V = Window;

    /// The text of the base, cut at the two bounds of the view.
    open spec fn view(&self) -> Window {
        self.view@
    }
}

impl<'a> StringViewMut<'a> {
    /// The base is valid UTF-8, and both bounds lie inside it and on scalar
    /// boundaries of it.
    pub open spec fn wf(&self) -> bool {
        self.view.wf()
    }

    /// The bytes of the base, as they are now.
    pub open spec fn bytes(&self) -> Seq<u8> {
        self.view.base@
    }

    /// The three parts of a well-formed view make up the text of its base.
    pub proof fn lemma_base(&self)
        requires
            self.wf(),
        ensures
            valid_utf8(self.bytes()),
            self@.base() == decode_utf8(self.bytes()),
    {
        self.view.lemma_bounds();
    }

    /// The view of the whole of `base`, which is valid UTF-8.
    pub fn new(base: &'a mut [u8]) -> (r: Self)
        requires
            valid_utf8(old(base)@),
        ensures
            r.wf(),
            r@ == Window::whole(decode_utf8(old(base)@)),
            r.view.base@ == old(base)@,
            final(r.view.base)@ == final(base)@,
    {
        StringViewMut { view: View::new(base) }
    }

    /// The view of `base[view_start..view_end]`, two byte offsets that are
    /// scalar boundaries of `base`, which is valid UTF-8.
    pub fn new_part(base: &'a mut [u8], view_start: usize, view_end: usize) -> (r: Self)
        requires
            valid_utf8(old(base)@),
            view_start <= view_end <= old(base)@.len(),
            is_char_boundary(old(base)@, view_start as int),
            is_char_boundary(old(base)@, view_end as int),
        ensures
            r.wf(),
            r@.base() == decode_utf8(old(base)@),
            byte_len(r@.left) == view_start,
            byte_len(r@.left + r@.text) == view_end,
            r@ == (Window {
                left: decode_utf8(old(base)@.subrange(0, view_start as int)),
                text: decode_utf8(old(base)@.subrange(view_start as int, view_end as int)),
                right: decode_utf8(old(base)@.subrange(view_end as int, old(base)@.len() as int)),
            }),
            r.view.base@ == old(base)@,
            final(r.view.base)@ == final(base)@,
    {
        let view = View::new_part(base, view_start, view_end);
        proof {
            view.lemma_bounds();
        }
        StringViewMut { view }
    }

    /// Byte offset of the left bound in the base.
    pub fn start(&self) -> (r: usize)
        requires
            self.wf(),
        ensures
            r == byte_len(self@.left),
    {
        self.view.start()
    }

    /// Byte offset of the right bound in the base.
    pub fn end(&self) -> (r: usize)
        requires
            self.wf(),
        ensures
            r == byte_len(self@.left + self@.text),
            r == byte_len(self@.left) + byte_len(self@.text),
    {
        proof {
            self.view.lemma_bounds();
        }
        self.view.end()
    }

    /// The text that the view shows.
    pub fn as_str(&self) -> (r: &str)
        requires
            self.wf(),
        ensures
            r@ == self@.text,
    {
        let end = self.view.end();
        text_of(slice_subrange(self.view.base, self.view.start(), end))
    }

    /// The bytes of the text that the view shows, for writing in place. The
    /// view is well-formed again once they are as many as before and valid
    /// UTF-8 again: a caller that writes anything else through them leaves a
    /// view that shows no text.
    pub fn as_str_mut(&mut self) -> (r: &mut [u8])
        requires
            old(self).wf(),
        ensures
            valid_utf8(r@),
            decode_utf8(r@) == old(self)@.text,
            final(self).view.view_start == old(self).view.view_start,
            final(self).view.view_len == old(self).view.view_len,
            final(self).view.base@ == splice(
                old(self).view.base@,
                old(self).view.view_start as int,
                old(self).view.spec_end(),
                final(r)@,
            ),
            final(final(self).view.base)@ == final(old(self).view.base)@,
            valid_utf8(final(r)@) && final(r)@.len() == r@.len() ==> final(self).wf()
                && final(self)@ == (Window {
                left: old(self)@.left,
                text: decode_utf8(final(r)@),
                right: old(self)@.right,
            }),
    {
        let ghost b = self.view.base@;
        let ghost s = self.view.view_start as int;
        let ghost e = self.view.view_start + self.view.view_len;
        let (_, tail) = self.view.base.split_at_mut(self.view.view_start);
        let (mid, _) = tail.split_at_mut(self.view.view_len);
        proof {
            assert(mid@ =~= b.subrange(s, e));
            assert forall|m: Seq<u8>| m.len() == e - s implies ({
                let a = #[trigger] splice(b, s, e, m);
                &&& a.len() == b.len()
                &&& a.subrange(0, s) == b.subrange(0, s)
                &&& a.subrange(s, e) == m
                &&& a.subrange(e, a.len() as int) == b.subrange(e, b.len() as int)
            }) by {
                lemma_splice(b, s, e, m);
            }
        }
        mid
    }

    /// Collapses the view to the empty view at its right bound.
    pub fn shrink_to_right(&mut self)
        requires
            old(self).wf(),
        ensures
            final(self).wf(),
            final(self)@ == old(self)@.shrink_to_right(),
            final(self).view.base@ == old(self).view.base@,
            final(final(self).view.base)@ == final(old(self).view.base)@,
    {
        self.view.shrink_to_right();
    }

    /// Collapses the view to the empty view at its left bound.
    pub fn shrink_to_left(&mut self)
        requires
            old(self).wf(),
        ensures
            final(self).wf(),
            final(self)@ == old(self)@.shrink_to_left(),
            final(self).view.base@ == old(self).view.base@,
            final(final(self).view.base)@ == final(old(self).view.base)@,
    {
        self.view.shrink_to_left();
    }

    /// Grows the view by the first `n` scalars right of it.
    pub fn extend_right(&mut self, n: usize)
        requires
            old(self).wf(),
            n <= old(self)@.right.len(),
        ensures
            final(self).wf(),
            final(self)@ == old(self)@.extend_right(n as int),
            final(self).view.base@ == old(self).view.base@,
            final(final(self).view.base)@ == final(old(self).view.base)@,
    {
        self.view.extend_right(n);
    }

    /// Grows the view by the first `n` scalars right of it, or fails and
    /// leaves it as it is where the base holds fewer than `n` there.
    pub fn try_extend_right(&mut self, n: usize) -> (r: Result<(), BaseStringIsTooShort<RIGHT>>)
        requires
            old(self).wf(),
        ensures
            final(self).wf(),
            r is Ok <==> n <= old(self)@.right.len(),
            r is Ok ==> final(self)@ == old(self)@.extend_right(n as int),
            r is Err ==> final(self)@ == old(self)@,
            final(self).view.base@ == old(self).view.base@,
            final(final(self).view.base)@ == final(old(self).view.base)@,
    {
        self.view.try_extend_right(n)
    }

    /// Grows the view to the right over the scalars on which `func` answers
    /// `true`, up to the first on which it answers `false` or to the end of
    /// the base.
    pub fn extend_right_while<F>(&mut self, func: F) where F: Fn(char) -> bool
        requires
            old(self).wf(),
            forall|c: char| call_requires(func, (c,)),
        ensures
            final(self).wf(),
            old(self)@.extends_right_while(func, final(self)@),
            final(self).view.base@ == old(self).view.base@,
            final(final(self).view.base)@ == final(old(self).view.base)@,
    {
        self.view.extend_right_while(func);
    }

    /// Shrinks the view by its last `n` scalars.
    pub fn reduce_right(&mut self, n: usize)
        requires
            old(self).wf(),
            n <= old(self)@.text.len(),
        ensures
            final(self).wf(),
            final(self)@ == old(self)@.reduce_right(n as int),
            final(self).view.base@ == old(self).view.base@,
            final(final(self).view.base)@ == final(old(self).view.base)@,
    {
        self.view.reduce_right(n);
    }

    /// Shrinks the view by its last `n` scalars, or fails and
    /// leaves it as it is where it holds fewer than `n`.
    pub fn try_reduce_right(&mut self, n: usize) -> (r: Result<(), ViewIsTooShort<RIGHT>>)
        requires
            old(self).wf(),
        ensures
            final(self).wf(),
            r is Ok <==> n <= old(self)@.text.len(),
            r is Ok ==> final(self)@ == old(self)@.reduce_right(n as int),
            r is Err ==> final(self)@ == old(self)@,
            final(self).view.base@ == old(self).view.base@,
            final(final(self).view.base)@ == final(old(self).view.base)@,
    {
        self.view.try_reduce_right(n)
    }

    /// Shrinks the view from the right over the scalars on which `func`
    /// answers `true`, back to the last on which it answers `false` or to the
    /// left bound.
    pub fn reduce_right_while<F>(&mut self, func: F) where F: Fn(char) -> bool
        requires
            old(self).wf(),
            forall|c: char| call_requires(func, (c,)),
        ensures
            final(self).wf(),
            old(self)@.reduces_right_while(func, final(self)@),
            final(self).view.base@ == old(self).view.base@,
            final(final(self).view.base)@ == final(old(self).view.base)@,
    {
        self.view.reduce_right_while(func);
    }

    /// Grows the view by the last `n` scalars left of it.
    pub fn extend_left(&mut self, n: usize)
        requires
            old(self).wf(),
            n <= old(self)@.left.len(),
        ensures
            final(self).wf(),
            final(self)@ == old(self)@.extend_left(n as int),
            final(self).view.base@ == old(self).view.base@,
            final(final(self).view.base)@ == final(old(self).view.base)@,
    {
        self.view.extend_left(n);
    }

    /// Grows the view by the last `n` scalars left of it, or fails and
    /// leaves it as it is where the base holds fewer than `n` there.
    pub fn try_extend_left(&mut self, n: usize) -> (r: Result<(), BaseStringIsTooShort<LEFT>>)
        requires
            old(self).wf(),
        ensures
            final(self).wf(),
            r is Ok <==> n <= old(self)@.left.len(),
            r is Ok ==> final(self)@ == old(self)@.extend_left(n as int),
            r is Err ==> final(self)@ == old(self)@,
            final(self).view.base@ == old(self).view.base@,
            final(final(self).view.base)@ == final(old(self).view.base)@,
    {
        self.view.try_extend_left(n)
    }

    /// Grows the view to the left over the scalars on which `func` answers
    /// `true`, back to the last on which it answers `false` or to the start
    /// of the base.
    pub fn extend_left_while<F>(&mut self, func: F) where F: Fn(char) -> bool
        requires
            old(self).wf(),
            forall|c: char| call_requires(func, (c,)),
        ensures
            final(self).wf(),
            old(self)@.extends_left_while(func, final(self)@),
            final(self).view.base@ == old(self).view.base@,
            final(final(self).view.base)@ == final(old(self).view.base)@,
    {
        self.view.extend_left_while(func);
    }

    /// Shrinks the view by its first `n` scalars.
    pub fn reduce_left(&mut self, n: usize)
        requires
            old(self).wf(),
            n <= old(self)@.text.len(),
        ensures
            final(self).wf(),
            final(self)@ == old(self)@.reduce_left(n as int),
            final(self).view.base@ == old(self).view.base@,
            final(final(self).view.base)@ == final(old(self).view.base)@,
    {
        self.view.reduce_left(n);
    }

    /// Shrinks the view by its first `n` scalars, or fails and
    /// leaves it as it is where it holds fewer than `n`.
    pub fn try_reduce_left(&mut self, n: usize) -> (r: Result<(), ViewIsTooShort<LEFT>>)
        requires
            old(self).wf(),
        ensures
            final(self).wf(),
            r is Ok <==> n <= old(self)@.text.len(),
            r is Ok ==> final(self)@ == old(self)@.reduce_left(n as int),
            r is Err ==> final(self)@ == old(self)@,
            final(self).view.base@ == old(self).view.base@,
            final(final(self).view.base)@ == final(old(self).view.base)@,
    {
        self.view.try_reduce_left(n)
    }

    /// Shrinks the view from the left over the scalars on which `func`
    /// answers `true`, up to the first on which it answers `false` or to the
    /// right bound.
    pub fn reduce_left_while<F>(&mut self, func: F) where F: Fn(char) -> bool
        requires
            old(self).wf(),
            forall|c: char| call_requires(func, (c,)),
        ensures
            final(self).wf(),
            old(self)@.reduces_left_while(func, final(self)@),
            final(self).view.base@ == old(self).view.base@,
            final(final(self).view.base)@ == final(old(self).view.base)@,
    {
        self.view.reduce_left_while(func);
    }

    /// Shrinks the view from the left while `func` answers `true`, and then
    /// what is left of it from the right.
    pub fn trim_while<F: Fn(char) -> bool>(&mut self, func: F)
        requires
            old(self).wf(),
            forall|c: char| call_requires(func, (c,)),
        ensures
            final(self).wf(),
            old(self)@.trims_while(func, final(self)@),
            final(self).view.base@ == old(self).view.base@,
            final(final(self).view.base)@ == final(old(self).view.base)@,
    {
        self.view.trim_while(func);
    }
}

} // verus!
