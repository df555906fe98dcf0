//! Operations on a whole buffer of UTF-8 text, in place: case conversion,
//! replacement and trimming. None of them changes the length of the buffer.
use crate::chars::{
    encode_into, lowercase_of, mapped_in_place, uppercase_of, CharsHaveDifferentSizes,
    CharsInPlaceMut,
};
use crate::string_view::View;
use crate::utf8::{
    byte_len, char_len, lemma_char_len_range, lemma_decode_concat, lemma_encode_single,
    lemma_single_scalar,
};
use crate::window::{
    decides, lemma_back_run_is_suffix_len, lemma_front_run_is_prefix_len, prefix_len, suffix_len,
    Window,
};
use vstd::prelude::*;
use vstd::utf8::*;
use vstd::view::View as _;

verus! {

/// The text `s` with each character replaced by its lowercase mapping where
/// that is one character of the same encoded length.
pub open spec fn lowercased(s: Seq<char>) -> Seq<char> {
    s.map_values(|c: char| mapped_in_place(c, lowercase_of(c)))
}

/// The text `s` with each character replaced by its uppercase mapping where
/// that is one character of the same encoded length.
pub open spec fn uppercased(s: Seq<char>) -> Seq<char> {
    s.map_values(|c: char| mapped_in_place(c, uppercase_of(c)))
}

/// Converts the case of the characters of `text` in place, to uppercase
/// where `upper` is set and to lowercase where it is not.
fn convert_case(text: &mut [u8], upper: bool)
    requires
        valid_utf8(old(text)@),
    ensures
        valid_utf8(final(text)@),
        final(text)@.len() == old(text)@.len(),
        decode_utf8(final(text)@) == (if upper {
            uppercased(decode_utf8(old(text)@))
        } else {
            lowercased(decode_utf8(old(text)@))
        }),
{
    let ghost before = decode_utf8(text@);
    let ghost total = text@.len();
    let ghost mut done: Seq<u8> = Seq::empty();
    let ghost cased = |s: Seq<char>| if upper { uppercased(s) } else { lowercased(s) };
    let mut chars = CharsInPlaceMut::new(text);
    let mut more = true;
    proof {
        assert(decode_utf8(done) =~= cased(before.take(0)));
        assert(before.skip(0) =~= before);
        assert(done + final(chars.rest)@ =~= final(chars.rest)@);
    }
    while more
        invariant
            chars.wf(),
            valid_utf8(done),
            0 <= decode_utf8(done).len() <= before.len(),
            cased == (|s: Seq<char>| if upper { uppercased(s) } else { lowercased(s) }),
            decode_utf8(done) == cased(before.take(decode_utf8(done).len() as int)),
            chars@ == before.skip(decode_utf8(done).len() as int),
            done.len() + chars.rest@.len() == total,
            after_borrow(text)@ == done + final(chars.rest)@,
            !more ==> chars.rest@.len() == 0,
        decreases chars.rest@.len() + (if more { 1int } else { 0int }),
    {
        let ghost i = decode_utf8(done).len() as int;
        match chars.next() {
            Some(mut ch) => {
                if upper {
                    let _ = ch.make_uppercase();
                } else {
                    let _ = ch.make_lowercase();
                }
                proof {
                    lemma_single_scalar(ch.span@);
                    lemma_decode_concat(done, ch.span@);
                    assert(before.skip(i)[0] == before[i]);
                    assert(before.skip(i).drop_first() =~= before.skip(i + 1));
                    assert(cased(before.take(i + 1)) =~= cased(before.take(i)) + seq![ch@]);
                    assert(done + (ch.span@ + final(chars.rest)@) =~= done + ch.span@ + final(chars.rest)@);
                    done = done + ch.span@;
                }
            },
            None => {
                more = false;
            },
        }
    }
    proof {
        assert(done + chars.rest@ =~= done);
        assert(chars@ =~= Seq::<char>::empty());
        assert(before.take(before.len() as int) =~= before);
    }
}

/// Makes the characters of `text` lowercase in place. A character whose
/// lowercase mapping is more than one character, or takes another number of
/// bytes, stays as it is.
pub fn make_lowercase(text: &mut [u8])
    requires
        valid_utf8(old(text)@),
    ensures
        valid_utf8(final(text)@),
        final(text)@.len() == old(text)@.len(),
        decode_utf8(final(text)@) == lowercased(decode_utf8(old(text)@)),
{
    convert_case(text, false);
}

/// Makes the characters of `text` uppercase in place. A character whose
/// uppercase mapping is more than one character, or takes another number of
/// bytes, stays as it is.
pub fn make_uppercase(text: &mut [u8])
    requires
        valid_utf8(old(text)@),
    ensures
        valid_utf8(final(text)@),
        final(text)@.len() == old(text)@.len(),
        decode_utf8(final(text)@) == uppercased(decode_utf8(old(text)@)),
{
    convert_case(text, true);
}

/// Overwrites `text` with `rep`, or fails and leaves `text` as it is where
/// `rep` does not take as many bytes.
pub fn replace_in_place(text: &mut [u8], rep: &str) -> (r: Result<(), CharsHaveDifferentSizes>)
    ensures
        r is Ok <==> old(text)@.len() == byte_len(rep@),
        r is Ok ==> final(text)@ == encode_utf8(rep@) && decode_utf8(final(text)@) == rep@,
        r is Err ==> final(text)@ == old(text)@,
{
    let src = rep.as_bytes();
    let n = text.len();
    if n != src.len() {
        return Err(CharsHaveDifferentSizes);
    }
    let mut idx: usize = 0;
    while idx < n
        invariant
            idx <= n,
            n == text@.len(),
            n == src@.len(),
            forall|j: int| 0 <= j < idx ==> text@[j] == src@[j],
        decreases n - idx,
    {
        text[idx] = src[idx];
        idx += 1;
    }
    proof {
        assert(text@ =~= src@);
        encode_utf8_decode_utf8(rep@);
    }
    Ok(())
}

/// The text of `n` times the character `ch`.
pub open spec fn repeated(ch: char, n: int) -> Seq<char> {
    Seq::new(n as nat, |i: int| ch)
}

/// Overwrites `text` with the character `ch`, as often as it fits, where the
/// length of `text` is a multiple of the encoded length of `ch`.
pub fn replace_with_char(text: &mut [u8], ch: char)
    requires
        (old(text)@.len() as int) % char_len(ch) == 0,
    ensures
        valid_utf8(final(text)@),
        final(text)@.len() == old(text)@.len(),
        decode_utf8(final(text)@) == repeated(ch, old(text)@.len() as int / char_len(ch)),
{
    let ghost total = text@.len() as int;
    let ghost mut done: Seq<u8> = Seq::empty();
    let ghost mut count: int = 0;
    let width = ch.len_utf8();
    let mut rest: &mut [u8] = text;
    proof {
        lemma_char_len_range(ch);
        assert(decode_utf8(done) =~= repeated(ch, 0));
        assert(done + final(rest)@ =~= final(rest)@);
    }
    while rest.len() > 0
        invariant
            1 <= width <= 4,
            width == char_len(ch),
            valid_utf8(done),
            count >= 0,
            done.len() == count * width,
            decode_utf8(done) == repeated(ch, count),
            done.len() + rest@.len() == total,
            (rest@.len() as int) % (width as int) == 0,
            after_borrow(text)@ == done + final(rest)@,
        decreases rest@.len(),
    {
        proof {
            let len = rest@.len() as int;
            let w = width as int;
            assert(len >= w && (len - w) % w == 0) by (nonlinear_arith)
                requires
                    len > 0,
                    w >= 1,
                    len % w == 0,
            ;
        }
        let (head, tail) = rest.split_at_mut(width);
        encode_into(ch, head);
        proof {
            lemma_encode_single(ch);
            lemma_single_scalar(head@);
            lemma_decode_concat(done, head@);
            assert(repeated(ch, count) + seq![ch] =~= repeated(ch, count + 1));
            assert(done + (head@ + final(tail)@) =~= done + head@ + final(tail)@);
            assert((count + 1) * width == count * width + width) by (nonlinear_arith);
            done = done + head@;
            count = count + 1;
        }
        rest = tail;
    }
    proof {
        assert(done + rest@ =~= done);
        assert(count == total / (width as int)) by (nonlinear_arith)
            requires
                total == count * width,
                width >= 1,
        ;
    }
}

/// Whether a `char` has the Unicode property White_Space, as
/// `char::is_whitespace` reports it.
pub uninterp spec fn is_white_space(c: char) -> bool;

/// `char::is_whitespace` tells whether the `char` has the Unicode property
/// White_Space.
pub assume_specification[ std::primitive::char::is_whitespace ](c: char) -> (r: bool)
    ensures
        r == is_white_space(c),
;

/// The text `s` cut in three by trimming: the longest prefix whose
/// characters all satisfy `p`, the longest suffix of what is left whose
/// characters all satisfy `p`, and between them what stays.
pub open spec fn trimmed(p: spec_fn(char) -> bool, s: Seq<char>) -> Window {
    Window::whole(s).reduce_left(prefix_len(p, s)).reduce_right(
        suffix_len(p, s.skip(prefix_len(p, s))),
    )
}

/// With a predicate that always answers the same, trimming takes the longest
/// matching prefix and then the longest matching suffix of what is left.
pub proof fn lemma_trims_while_is_trimmed<F: Fn(char) -> bool>(
    f: F,
    p: spec_fn(char) -> bool,
    s: Seq<char>,
    w: Window,
)
    requires
        decides(f, p),
        Window::whole(s).trims_while(f, w),
    ensures
        w == trimmed(p, s),
{
    let whole = Window::whole(s);
    let n1 = w.left.len() - whole.left.len();
    let mid = whole.reduce_left(n1);
    lemma_front_run_is_prefix_len(f, p, s, s.len() - mid.text.len());
    assert(mid.text.len() == s.len() - n1);
    assert(mid.text =~= s.skip(n1));
    lemma_back_run_is_suffix_len(f, p, mid.text, mid.text.len() - w.text.len());
}

/// The part of `text` that is left when the characters on which `pat`
/// answers `true` are taken off its start, and then off the end of what is
/// left. The part is handed out for writing; the bytes on both sides of it
/// stay as they are.
pub fn trim_matches_mut<P: Fn(char) -> bool>(text: &mut [u8], pat: P) -> (r: &mut [u8])
    requires
        valid_utf8(old(text)@),
        forall|c: char| call_requires(pat, (c,)),
    ensures
        valid_utf8(r@),
        exists|w: Window|
            {
                &&& #[trigger] Window::whole(decode_utf8(old(text)@)).trims_while(pat, w)
                &&& decode_utf8(r@) == w.text
                &&& old(text)@ == encode_utf8(w.left) + r@ + encode_utf8(w.right)
                &&& final(text)@ == encode_utf8(w.left) + final(r)@ + encode_utf8(w.right)
            },
{
    let ghost b = text@;
    let shared: &[u8] = text;
    let mut view = View::new(shared);
    view.trim_while(pat);
    let start = view.start();
    let end = view.end();
    let ghost w = view@;
    proof {
        view.lemma_bounds();
        view.lemma_parts();
    }
    let (_, tail) = text.split_at_mut(start);
    let (mid, _) = tail.split_at_mut(end - start);
    proof {
        let left = b.subrange(0, start as int);
        let right = b.subrange(end as int, b.len() as int);
        assert(mid@ =~= b.subrange(start as int, end as int));
        assert(b =~= left + mid@ + right);
        assert(left + (final(mid)@ + right) =~= left + final(mid)@ + right);
        encode_utf8_decode_utf8(w.text);
        assert(Window::whole(decode_utf8(b)).trims_while(pat, w));
    }
    mid
}

/// The text `s` cut in three by trimming white space off both ends.
pub open spec fn trimmed_white(s: Seq<char>) -> Window {
    trimmed(|c: char| is_white_space(c), s)
}

/// The part of `text` that is left without the white space at its start and
/// at its end, handed out for writing. The bytes on both sides of it stay as
/// they are.
pub fn trim_mut(text: &mut [u8]) -> (r: &mut [u8])
    requires
        valid_utf8(old(text)@),
    ensures
        valid_utf8(r@),
        decode_utf8(r@) == trimmed_white(decode_utf8(old(text)@)).text,
        old(text)@ == encode_utf8(trimmed_white(decode_utf8(old(text)@)).left) + r@ + encode_utf8(
            trimmed_white(decode_utf8(old(text)@)).right,
        ),
        final(text)@ == encode_utf8(trimmed_white(decode_utf8(old(text)@)).left) + final(r)@
            + encode_utf8(trimmed_white(decode_utf8(old(text)@)).right),
{
    let ghost s = decode_utf8(text@);
    let r = trim_matches_mut(text, char::is_whitespace);
    proof {
        let p = |c: char| is_white_space(c);
        assert(decides(char::is_whitespace, p));
        assert forall|w: Window| #[trigger]
            Window::whole(s).trims_while(char::is_whitespace, w) implies w == trimmed(p, s) by {
            lemma_trims_while_is_trimmed(char::is_whitespace, p, s, w);
        }
    }
    r
}

} // verus!
