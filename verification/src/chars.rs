//! Handles onto single characters inside a text, and the iterators that cut
//! a text into such handles from either end.
//!
//! A [`Char`] borrows one character of a string slice. A [`CharMut`] borrows
//! the bytes of one character exclusively and can put another character of
//! the same encoded length in its place. [`CharsInPlace`] and
//! [`CharsInPlaceMut`] hand out the characters of a text one by one; what the
//! exclusive iterator hands out never overlaps, and to the base buffer goes
//! back what the handles hold when they are let go, in the order in which
//! they stood.
use crate::utf8::{
    char_len, decode_first, first_char, first_scalar_len, holds_single_scalar, is_single_scalar,
    last_scalar_len, lemma_decode_one_is_single, lemma_encode_single, lemma_first_scalar,
    lemma_last_scalar, lemma_single_scalar, lemma_splits_boundary, text_of,
};
use vstd::prelude::*;
use vstd::std_specs::cmp::PartialEqSpecImpl;
use vstd::utf8::*;

verus! {

/// A replacement does not take as many bytes as the character it was to
/// replace.
#[derive(Debug, Clone, Copy)]
pub struct CharsHaveDifferentSizes;

impl CharsHaveDifferentSizes {
    /// What went wrong, in words.
    pub fn message(&self) -> (r: &'static str)
        ensures
            r@
                == "Unable to replace character because they have different sizes.Characters have to have the same size for in-place modification."@,
    {
        "Unable to replace character because they have different sizes.Characters have to have the same size for in-place modification."
    }
}

/// Whether `x` and `y` hold the same bytes.
fn same_bytes(x: &[u8], y: &[u8]) -> (r: bool)
    ensures
        r == (x@ == y@),
{
    if x.len() != y.len() {
        return false;
    }
    let mut i: usize = 0;
    while i < x.len()
        invariant
            i <= x@.len(),
            x@.len() == y@.len(),
            forall|j: int| 0 <= j < i ==> x@[j] == y@[j],
        decreases x@.len() - i,
    {
        if x[i] != y[i] {
            return false;
        }
        i += 1;
    }
    proof {
        assert(x@ =~= y@);
    }
    true
}

/// Whether `a` and `b` are the same text.
fn same_text(a: &str, b: &str) -> (r: bool)
    ensures
        r == (a@ == b@),
{
    proof {
        encode_utf8_decode_utf8(a@);
        encode_utf8_decode_utf8(b@);
    }
    same_bytes(a.as_bytes(), b.as_bytes())
}

/// One character of a string slice, in place.
#[derive(Debug)]
pub struct Char<'a> {
    text: &'a str,
}

impl<'a> View for Char<'a> {
    type V = char;

    /// The character that the handle stands on.
    closed spec fn view(&self) -> char {
        self.text@[0]
    }
}

impl<'a> Char<'a> {
    /// The handle spans exactly one character.
    #[verifier::type_invariant]
    spec fn single(self) -> bool {
        self.text@.len() == 1
    }

    /// The handle onto `ch`, a string slice of exactly one character.
    pub fn new(ch: &'a str) -> (r: Char<'a>)
        requires
            ch@.len() == 1,
        ensures
            r@ == ch@[0],
    {
        Char { text: ch }
    }

    /// The handle onto `ch` where `ch` is exactly one character; `None` where
    /// it is empty or holds more than one.
    pub fn try_new(ch: &'a str) -> (r: Option<Char<'a>>)
        ensures
            r is Some <==> ch@.len() == 1,
            r matches Some(c) ==> c@ == ch@[0],
    {
        let bytes = ch.as_bytes();
        let n = bytes.len();
        proof {
            encode_utf8_valid_utf8(ch@);
            encode_utf8_decode_utf8(ch@);
            assert(bytes@.subrange(0, n as int) =~= bytes@);
            if n == 0 {
                assert(decode_utf8(bytes@) =~= Seq::<char>::empty());
            }
        }
        if n == 0 {
            return None;
        }
        let char_len = first_scalar_len(bytes, 0, n);
        proof {
            lemma_first_scalar(bytes@);
            if char_len == n {
                lemma_single_scalar(bytes@);
            }
            if ch@.len() == 1 {
                lemma_decode_one_is_single(bytes@);
            }
        }
        if char_len == n {
            Some(Char { text: ch })
        } else {
            None
        }
    }

    /// The character that the handle stands on.
    pub fn char(&self) -> (c: char)
        ensures
            c == self@,
    {
        let bytes = self.text.as_bytes();
        proof {
            use_type_invariant(self);
            encode_utf8_valid_utf8(self.text@);
            encode_utf8_decode_utf8(self.text@);
            assert(bytes@.len() > 0) by {
                if bytes@.len() == 0 {
                    assert(decode_utf8(bytes@) =~= Seq::<char>::empty());
                }
            }
            assert(bytes@.subrange(0, bytes@.len() as int) =~= bytes@);
        }
        decode_first(bytes, 0, bytes.len())
    }

    /// The string slice that the handle spans: its character and nothing
    /// else.
    pub fn as_str(&self) -> (r: &'a str)
        ensures
            r@ == seq![self@],
    {
        proof {
            use_type_invariant(self);
            assert(self.text@ =~= seq![self.text@[0]]);
        }
        self.text
    }
}

impl<'a> PartialEq for Char<'a> {
    /// Whether both handles stand on the same character.
    fn eq(&self, other: &Self) -> (r: bool) {
        proof {
            use_type_invariant(self);
            use_type_invariant(other);
            assert(self.text@ =~= seq![self.text@[0]]);
            assert(other.text@ =~= seq![other.text@[0]]);
        }
        same_text(self.text, other.text)
    }
}

impl<'a> PartialEqSpecImpl for Char<'a> {
    open spec fn obeys_eq_spec() -> bool {
        true
    }

    open spec fn eq_spec(&self, other: &Self) -> bool {
        self@ == other@
    }
}

impl<'a> Eq for Char<'a> {}

impl<'a> PartialEq<char> for Char<'a> {
    /// Whether the handle stands on the character `other`.
    fn eq(&self, other: &char) -> (r: bool) {
        self.char() == *other
    }
}

impl<'a> PartialEqSpecImpl<char> for Char<'a> {
    open spec fn obeys_eq_spec() -> bool {
        true
    }

    open spec fn eq_spec(&self, other: &char) -> bool {
        self@ == *other
    }
}

impl<'a, 'b> PartialEq<&'b str> for Char<'a> {
    /// Whether the handle spans the text `other`.
    fn eq(&self, other: &&'b str) -> (r: bool) {
        proof {
            use_type_invariant(self);
            assert(self.text@ =~= seq![self.text@[0]]);
        }
        same_text(self.text, *other)
    }
}

impl<'a, 'b> PartialEqSpecImpl<&'b str> for Char<'a> {
    open spec fn obeys_eq_spec() -> bool {
        true
    }

    open spec fn eq_spec(&self, other: &&'b str) -> bool {
        other@ == seq![self@]
    }
}

/// The characters of a string slice, handed out in place from either end.
pub struct CharsInPlace<'a> {
    rest: &'a str,
}

impl<'a> View for CharsInPlace<'a> {
    type V = Seq<char>;

    /// The characters that are still to be handed out.
    closed spec fn view(&self) -> Seq<char> {
        self.rest@
    }
}

impl<'a> CharsInPlace<'a> {
    /// The iterator over the characters of `s`.
    pub fn new(s: &'a str) -> (r: Self)
        ensures
            r@ == s@,
    {
        CharsInPlace { rest: s }
    }

    /// Hands out the first of the remaining characters, or `None` when none
    /// is left.
    pub fn next(&mut self) -> (r: Option<Char<'a>>)
        ensures
            r is Some <==> old(self)@.len() > 0,
            r matches Some(c) ==> step_front(old(self)@) == (Some(c@), final(self)@),
            r is None ==> step_front(old(self)@) == (None::<char>, final(self)@),
    {
        let bytes = self.rest.as_bytes();
        let n = bytes.len();
        proof {
            encode_utf8_valid_utf8(self.rest@);
            encode_utf8_decode_utf8(self.rest@);
            assert(bytes@.subrange(0, n as int) =~= bytes@);
            if n == 0 {
                assert(decode_utf8(bytes@) =~= Seq::<char>::empty());
            }
        }
        if n == 0 {
            return None;
        }
        let k = first_scalar_len(bytes, 0, n);
        proof {
            lemma_first_scalar(bytes@);
            lemma_single_scalar(bytes@.subrange(0, k as int));
            lemma_splits_boundary(bytes@, k as int);
        }
        let (this, rest) = self.rest.split_at(k);
        proof {
            assert(encode_utf8(this@) =~= bytes@.subrange(0, k as int));
            assert(encode_utf8(rest@) =~= bytes@.subrange(k as int, n as int));
            encode_utf8_decode_utf8(this@);
            encode_utf8_decode_utf8(rest@);
        }
        self.rest = rest;
        Some(Char { text: this })
    }

    /// Hands out the last of the remaining characters, or `None` when none is
    /// left.
    pub fn next_back(&mut self) -> (r: Option<Char<'a>>)
        ensures
            r is Some <==> old(self)@.len() > 0,
            r matches Some(c) ==> step_back(old(self)@) == (Some(c@), final(self)@),
            r is None ==> step_back(old(self)@) == (None::<char>, final(self)@),
    {
        let bytes = self.rest.as_bytes();
        let n = bytes.len();
        proof {
            encode_utf8_valid_utf8(self.rest@);
            encode_utf8_decode_utf8(self.rest@);
            assert(bytes@.subrange(0, n as int) =~= bytes@);
            if n == 0 {
                assert(decode_utf8(bytes@) =~= Seq::<char>::empty());
            }
        }
        if n == 0 {
            return None;
        }
        let k = last_scalar_len(bytes, 0, n);
        proof {
            lemma_last_scalar(bytes@);
            lemma_single_scalar(take_last_scalar(bytes@));
            lemma_splits_boundary(bytes@, n - k);
        }
        let (rest, this) = self.rest.split_at(n - k);
        proof {
            assert(encode_utf8(this@) =~= take_last_scalar(bytes@));
            assert(encode_utf8(rest@) =~= bytes@.subrange(0, n - k));
            encode_utf8_decode_utf8(this@);
            encode_utf8_decode_utf8(rest@);
        }
        self.rest = rest;
        Some(Char { text: this })
    }
}

/// What asking an iterator from the front does to the characters `s` that it
/// still holds: the character that it hands out, if there is one, and the
/// characters that it keeps.
pub open spec fn step_front(s: Seq<char>) -> (Option<char>, Seq<char>) {
    if s.len() > 0 {
        (Some(s[0]), s.drop_first())
    } else {
        (None, s)
    }
}

/// What asking an iterator from the back does to the characters `s` that it
/// still holds: the character that it hands out, if there is one, and the
/// characters that it keeps.
pub open spec fn step_back(s: Seq<char>) -> (Option<char>, Seq<char>) {
    if s.len() > 0 {
        (Some(s.last()), s.drop_last())
    } else {
        (None, s)
    }
}

/// The characters that an iterator over `s` hands out when it is asked from
/// the front until nothing is left, in the order in which they come.
pub open spec fn handed_out(s: Seq<char>) -> Seq<char>
    decreases s.len(),
{
    match step_front(s) {
        (Some(c), rest) => seq![c] + handed_out(rest),
        (None, _) => Seq::empty(),
    }
}

/// The characters that an iterator over `s` hands out when it is asked from
/// the back until nothing is left, in the order in which they come.
pub open spec fn handed_out_back(s: Seq<char>) -> Seq<char>
    decreases s.len(),
{
    match step_back(s) {
        (Some(c), rest) => seq![c] + handed_out_back(rest),
        (None, _) => Seq::empty(),
    }
}

/// Asked from the front, an iterator over a text of `k` characters hands out
/// `k` handles, and their characters in this order are the text.
pub proof fn lemma_handed_out_is_text(s: Seq<char>)
    ensures
        handed_out(s) == s,
    decreases s.len(),
{
    if s.len() > 0 {
        lemma_handed_out_is_text(s.drop_first());
        assert(seq![s[0]] + s.drop_first() =~= s);
    } else {
        assert(s =~= Seq::<char>::empty());
    }
}

/// Asked from the back, an iterator over a text of `k` characters hands out
/// the same `k` handles in the opposite order.
pub proof fn lemma_handed_out_back_is_reverse(s: Seq<char>)
    ensures
        handed_out_back(s) == s.reverse(),
        handed_out_back(s) == handed_out(s).reverse(),
    decreases s.len(),
{
    lemma_handed_out_is_text(s);
    if s.len() > 0 {
        lemma_handed_out_back_is_reverse(s.drop_last());
        lemma_handed_out_is_text(s.drop_last());
        assert(seq![s.last()] + s.drop_last().reverse() =~= s.reverse());
    } else {
        assert(s.reverse() =~= Seq::<char>::empty());
    }
}

/// `char::encode_utf8` fills a buffer that is as long as the `char`'s UTF-8
/// encoding with that encoding.
#[verifier::external_body]
pub(crate) fn encode_into(c: char, dst: &mut [u8])
    requires
        old(dst)@.len() == char_len(c),
    ensures
        final(dst)@ == encode_scalar(c as u32),
{
    c.encode_utf8(dst);
}

/// The iterator that `char::to_uppercase` returns.
#[verifier::external_type_specification]
#[verifier::external_body]
pub struct ExToUppercase(core::char::ToUppercase);

/// The iterator that `char::to_lowercase` returns.
#[verifier::external_type_specification]
#[verifier::external_body]
pub struct ExToLowercase(core::char::ToLowercase);

/// The uppercase mapping of a `char` in Unicode, which `char::to_uppercase`
/// yields: one `char` or more.
pub uninterp spec fn uppercase_of(c: char) -> Seq<char>;

/// The lowercase mapping of a `char` in Unicode, which `char::to_lowercase`
/// yields: one `char` or more.
pub uninterp spec fn lowercase_of(c: char) -> Seq<char>;

/// What an uppercase mapping still has to yield.
pub uninterp spec fn upper_pending(it: core::char::ToUppercase) -> Seq<char>;

/// What a lowercase mapping still has to yield.
pub uninterp spec fn lower_pending(it: core::char::ToLowercase) -> Seq<char>;

/// `char::to_uppercase` returns an iterator over the uppercase mapping of the
/// `char`, which holds at least one `char`.
pub assume_specification[ std::primitive::char::to_uppercase ](c: char) -> (it:
    core::char::ToUppercase)
    ensures
        upper_pending(it) == uppercase_of(c),
        upper_pending(it).len() >= 1,
;

/// `char::to_lowercase` returns an iterator over the lowercase mapping of the
/// `char`, which holds at least one `char`.
pub assume_specification[ std::primitive::char::to_lowercase ](c: char) -> (it:
    core::char::ToLowercase)
    ensures
        lower_pending(it) == lowercase_of(c),
        lower_pending(it).len() >= 1,
;

/// `Iterator::next` of an uppercase mapping yields the first `char` that is
/// pending, and `None` when none is.
#[verifier::external_body]
fn next_upper(it: &mut core::char::ToUppercase) -> (r: Option<char>)
    ensures
        r is Some <==> upper_pending(*old(it)).len() > 0,
        r matches Some(c) ==> c == upper_pending(*old(it))[0] && upper_pending(*final(it))
            == upper_pending(*old(it)).drop_first(),
        r is None ==> upper_pending(*final(it)) == upper_pending(*old(it)),
{
    it.next()
}

/// `Iterator::next` of a lowercase mapping yields the first `char` that is
/// pending, and `None` when none is.
#[verifier::external_body]
fn next_lower(it: &mut core::char::ToLowercase) -> (r: Option<char>)
    ensures
        r is Some <==> lower_pending(*old(it)).len() > 0,
        r matches Some(c) ==> c == lower_pending(*old(it))[0] && lower_pending(*final(it))
            == lower_pending(*old(it)).drop_first(),
        r is None ==> lower_pending(*final(it)) == lower_pending(*old(it)),
{
    it.next()
}

/// The character that stands where `c` stood after an attempt to put the
/// case mapping `mapping` of `c` in its place: the mapping where it is one
/// character that takes as many bytes as `c`, else `c` itself.
pub open spec fn mapped_in_place(c: char, mapping: Seq<char>) -> char {
    if mapping.len() == 1 && char_len(mapping[0]) == char_len(c) {
        mapping[0]
    } else {
        c
    }
}

/// One character of a buffer of UTF-8 text, in place and borrowed
/// exclusively. The bytes it spans can be overwritten, with another
/// character that takes as many.
#[derive(Debug)]
pub struct CharMut<'a> {
    pub span: &'a mut [u8],
}

impl<'a> View for CharMut<'a> {
    type V = char;

    /// The character that the handle stands on.
    open spec fn view(&self) -> char {
        first_char(self.span@)
    }
}

impl<'a> CharMut<'a> {
    /// The handle spans the encoding of exactly one character.
    pub open spec fn wf(&self) -> bool {
        is_single_scalar(self.span@)
    }

    /// The bytes that the handle spans, as they are now.
    pub open spec fn bytes(&self) -> Seq<u8> {
        self.span@
    }

    /// The handle onto `ch`, the UTF-8 encoding of exactly one character.
    pub fn new(ch: &'a mut [u8]) -> (r: CharMut<'a>)
        requires
            is_single_scalar(old(ch)@),
        ensures
            r.wf(),
            r@ == first_char(old(ch)@),
            r.span@ == old(ch)@,
            final(r.span)@ == final(ch)@,
    {
        CharMut { span: ch }
    }

    /// The handle onto `ch` where `ch` is the UTF-8 encoding of exactly one
    /// character; `None` where it is empty, holds more behind its first
    /// character, or does not start with a character at all.
    pub fn try_new(ch: &'a mut [u8]) -> (r: Option<CharMut<'a>>)
        ensures
            r is Some <==> is_single_scalar(old(ch)@),
            r matches Some(c) ==> c.wf() && c.span@ == old(ch)@ && final(c.span)@ == final(ch)@,
            r is None ==> final(ch)@ == old(ch)@,
    {
        if holds_single_scalar(ch) {
            Some(CharMut { span: ch })
        } else {
            None
        }
    }

    /// The character that the handle stands on.
    pub fn char(&self) -> (c: char)
        requires
            self.wf(),
        ensures
            c == self@,
    {
        proof {
            lemma_single_scalar(self.span@);
            assert(self.span@.subrange(0, self.span@.len() as int) =~= self.span@);
        }
        decode_first(self.span, 0, self.span.len())
    }

    /// The text that the handle spans.
    pub fn as_str(&self) -> (r: &str)
        requires
            self.wf(),
        ensures
            r@ == seq![self@],
    {
        proof {
            lemma_single_scalar(self.span@);
        }
        text_of(self.span)
    }

    /// The bytes that the handle spans, for writing. The handle is
    /// well-formed again once they are the encoding of one character again.
    pub fn as_str_mut(&mut self) -> (r: &mut [u8])
        ensures
            r@ == old(self).span@,
            final(self).span@ == final(r)@,
            final(final(self).span)@ == final(old(self).span)@,
    {
        &mut *self.span
    }

    /// The same character as a shared handle.
    pub fn as_char(&self) -> (r: Char<'_>)
        requires
            self.wf(),
        ensures
            r@ == self@,
    {
        proof {
            lemma_single_scalar(self.span@);
        }
        Char { text: text_of(self.span) }
    }

    /// Whether `ch` takes as many bytes as the character that the handle
    /// stands on.
    pub fn is_same_size(&self, ch: char) -> (r: bool)
        ensures
            r == (self.bytes().len() == char_len(ch)),
            self.wf() ==> r == (char_len(self@) == char_len(ch)),
    {
        proof {
            if self.wf() {
                lemma_single_scalar(self.span@);
            }
        }
        self.span.len() == ch.len_utf8()
    }

    /// Puts `ch` in place of the character, or fails and leaves the bytes as
    /// they are where `ch` does not take as many bytes.
    pub fn replace(&mut self, ch: char) -> (r: Result<(), CharsHaveDifferentSizes>)
        requires
            old(self).wf(),
        ensures
            r is Ok <==> char_len(ch) == char_len(old(self)@),
            r is Ok ==> final(self)@ == ch && final(self).span@ == encode_scalar(ch as u32),
            r is Err ==> final(self).span@ == old(self).span@,
            final(self).wf(),
            final(self).span@.len() == old(self).span@.len(),
            final(final(self).span)@ == final(old(self).span)@,
    {
        proof {
            lemma_single_scalar(self.span@);
            lemma_encode_single(ch);
        }
        if !self.is_same_size(ch) {
            return Err(CharsHaveDifferentSizes);
        }
        encode_into(ch, self.span);
        Ok(())
    }

    /// Puts a case mapping in place of the character: `first`, where the
    /// mapping is that one character (`more` is false) and it takes as many
    /// bytes. Fails and leaves the bytes as they are otherwise.
    pub fn replace_mapped(&mut self, first: char, more: bool) -> (r: Result<
        (),
        CharsHaveDifferentSizes,
    >)
        requires
            old(self).wf(),
        ensures
            r is Ok <==> !more && char_len(first) == char_len(old(self)@),
            r is Ok ==> final(self)@ == first && final(self).span@ == encode_scalar(first as u32),
            r is Err ==> final(self).span@ == old(self).span@,
            final(self).wf(),
            final(self).span@.len() == old(self).span@.len(),
            final(final(self).span)@ == final(old(self).span)@,
    {
        if more {
            return Err(CharsHaveDifferentSizes);
        }
        self.replace(first)
    }

    /// Makes the character uppercase in place, or fails and leaves the bytes
    /// as they are where its uppercase mapping is more than one character or
    /// does not take as many bytes.
    pub fn make_uppercase(&mut self) -> (r: Result<(), CharsHaveDifferentSizes>)
        requires
            old(self).wf(),
        ensures
            r is Ok <==> uppercase_of(old(self)@).len() == 1 && char_len(uppercase_of(old(self)@)[0])
                == char_len(old(self)@),
            r is Ok ==> final(self).span@ == encode_scalar(uppercase_of(old(self)@)[0] as u32),
            r is Err ==> final(self).span@ == old(self).span@,
            final(self)@ == mapped_in_place(old(self)@, uppercase_of(old(self)@)),
            final(self).wf(),
            final(self).span@.len() == old(self).span@.len(),
            final(final(self).span)@ == final(old(self).span)@,
    {
        let this_char = self.char();
        let mut upper_chars = this_char.to_uppercase();
        let this_upper = match next_upper(&mut upper_chars) {
            Some(c) => c,
            None => vstd::pervasive::unreached(),
        };
        let more = next_upper(&mut upper_chars).is_some();
        self.replace_mapped(this_upper, more)
    }

    /// Makes the character lowercase in place, or fails and leaves the bytes
    /// as they are where its lowercase mapping is more than one character or
    /// does not take as many bytes.
    pub fn make_lowercase(&mut self) -> (r: Result<(), CharsHaveDifferentSizes>)
        requires
            old(self).wf(),
        ensures
            r is Ok <==> lowercase_of(old(self)@).len() == 1 && char_len(lowercase_of(old(self)@)[0])
                == char_len(old(self)@),
            r is Ok ==> final(self).span@ == encode_scalar(lowercase_of(old(self)@)[0] as u32),
            r is Err ==> final(self).span@ == old(self).span@,
            final(self)@ == mapped_in_place(old(self)@, lowercase_of(old(self)@)),
            final(self).wf(),
            final(self).span@.len() == old(self).span@.len(),
            final(final(self).span)@ == final(old(self).span)@,
    {
        let this_char = self.char();
        let mut lower_chars = this_char.to_lowercase();
        let this_lower = match next_lower(&mut lower_chars) {
            Some(c) => c,
            None => vstd::pervasive::unreached(),
        };
        let more = next_lower(&mut lower_chars).is_some();
        self.replace_mapped(this_lower, more)
    }
}

impl<'a> PartialEq for CharMut<'a> {
    /// Whether both handles span the same bytes.
    fn eq(&self, other: &Self) -> (r: bool) {
        same_bytes(self.span, other.span)
    }
}

impl<'a> PartialEqSpecImpl for CharMut<'a> {
    open spec fn obeys_eq_spec() -> bool {
        true
    }

    open spec fn eq_spec(&self, other: &Self) -> bool {
        self.bytes() == other.bytes()
    }
}

impl<'a> Eq for CharMut<'a> {}

impl<'a> PartialEq<char> for CharMut<'a> {
    /// Whether the handle spans the encoding of the character `other`.
    fn eq(&self, other: &char) -> (r: bool) {
        proof {
            lemma_encode_single(*other);
            if is_single_scalar(self.span@) {
                lemma_single_scalar(self.span@);
                assert(self.span@.subrange(0, self.span@.len() as int) =~= self.span@);
            }
        }
        holds_single_scalar(self.span) && decode_first(self.span, 0, self.span.len()) == *other
    }
}

impl<'a> PartialEqSpecImpl<char> for CharMut<'a> {
    open spec fn obeys_eq_spec() -> bool {
        true
    }

    open spec fn eq_spec(&self, other: &char) -> bool {
        self.bytes() == encode_scalar(*other as u32)
    }
}

impl<'a, 'b> PartialEq<&'b str> for CharMut<'a> {
    /// Whether the handle spans the bytes of the text `other`.
    fn eq(&self, other: &&'b str) -> (r: bool) {
        same_bytes(self.span, other.as_bytes())
    }
}

impl<'a, 'b> PartialEqSpecImpl<&'b str> for CharMut<'a> {
    open spec fn obeys_eq_spec() -> bool {
        true
    }

    open spec fn eq_spec(&self, other: &&'b str) -> bool {
        self.bytes() == encode_utf8(other@)
    }
}

/// The characters of a buffer of UTF-8 text, handed out in place from either
/// end, each for writing.
pub struct CharsInPlaceMut<'a> {
    pub rest: &'a mut [u8],
}

impl<'a> View for CharsInPlaceMut<'a> {
    type V = Seq<char>;

    /// The characters that are still to be handed out.
    open spec fn view(&self) -> Seq<char> {
        decode_utf8(self.rest@)
    }
}

impl<'a> CharsInPlaceMut<'a> {
    /// What is still to be handed out is valid UTF-8.
    pub open spec fn wf(&self) -> bool {
        valid_utf8(self.rest@)
    }

    /// The iterator over the characters of `s`, which is valid UTF-8.
    pub fn new(s: &'a mut [u8]) -> (r: Self)
        requires
            valid_utf8(old(s)@),
        ensures
            r.wf(),
            r@ == decode_utf8(old(s)@),
            r.rest@ == old(s)@,
            final(r.rest)@ == final(s)@,
    {
        CharsInPlaceMut { rest: s }
    }

    /// Hands out the first of the remaining characters, or `None` when none
    /// is left. The bytes of the handle and those that the iterator keeps lie
    /// side by side and do not overlap.
    pub fn next(&mut self) -> (r: Option<CharMut<'a>>)
        requires
            old(self).wf(),
        ensures
            final(self).wf(),
            r is Some <==> old(self)@.len() > 0,
            r matches Some(c) ==> {
                &&& c.wf()
                &&& step_front(old(self)@) == (Some(c@), final(self)@)
                &&& old(self).rest@ == c.span@ + final(self).rest@
                &&& final(old(self).rest)@ == final(c.span)@ + final(final(self).rest)@
            },
            r is None ==> final(self).rest@ == old(self).rest@,
            r is None ==> final(final(self).rest)@ == final(old(self).rest)@,
    {
        let n = self.rest.len();
        proof {
            assert(self.rest@.subrange(0, n as int) =~= self.rest@);
            if n == 0 {
                assert(decode_utf8(self.rest@) =~= Seq::<char>::empty());
            }
        }
        if n == 0 {
            return None;
        }
        let k = first_scalar_len(self.rest, 0, n);
        proof {
            lemma_first_scalar(self.rest@);
            lemma_single_scalar(self.rest@.subrange(0, k as int));
        }
        let mut this: &'a mut [u8] = &mut [];
        core::mem::swap(&mut self.rest, &mut this);
        let (head, tail) = this.split_at_mut(k);
        proof {
            assert(head@ + tail@ =~= old(self).rest@);
        }
        self.rest = tail;
        Some(CharMut { span: head })
    }

    /// Hands out the last of the remaining characters, or `None` when none is
    /// left. The bytes of the handle and those that the iterator keeps lie
    /// side by side and do not overlap.
    pub fn next_back(&mut self) -> (r: Option<CharMut<'a>>)
        requires
            old(self).wf(),
        ensures
            final(self).wf(),
            r is Some <==> old(self)@.len() > 0,
            r matches Some(c) ==> {
                &&& c.wf()
                &&& step_back(old(self)@) == (Some(c@), final(self)@)
                &&& old(self).rest@ == final(self).rest@ + c.span@
                &&& final(old(self).rest)@ == final(final(self).rest)@ + final(c.span)@
            },
            r is None ==> final(self).rest@ == old(self).rest@,
            r is None ==> final(final(self).rest)@ == final(old(self).rest)@,
    {
        let n = self.rest.len();
        proof {
            assert(self.rest@.subrange(0, n as int) =~= self.rest@);
            if n == 0 {
                assert(decode_utf8(self.rest@) =~= Seq::<char>::empty());
            }
        }
        if n == 0 {
            return None;
        }
        let k = last_scalar_len(self.rest, 0, n);
        proof {
            lemma_last_scalar(self.rest@);
            lemma_single_scalar(take_last_scalar(self.rest@));
        }
        let mut this: &'a mut [u8] = &mut [];
        core::mem::swap(&mut self.rest, &mut this);
        let (rest, tail) = this.split_at_mut(n - k);
        proof {
            assert(rest@ + tail@ =~= old(self).rest@);
        }
        self.rest = rest;
        Some(CharMut { span: tail })
    }
}

} // verus!
