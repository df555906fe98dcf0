//! Scalar values inside UTF-8 byte sequences: where one starts, where it
//! ends, what it decodes to, and the facts that the rest of the crate needs
//! of `vstd::utf8`'s model of the encoding.
use vstd::prelude::*;
use vstd::utf8::*;

verus! {

/// Number of bytes that the UTF-8 encoding of `c` takes.
pub open spec fn char_len(c: char) -> int {
    encode_scalar(c as u32).len() as int
}

/// Number of bytes that the UTF-8 encoding of `s` takes.
pub open spec fn byte_len(s: Seq<char>) -> int {
    encode_utf8(s).len() as int
}

/// `bytes` is the encoding of exactly one scalar value, with nothing after it.
pub open spec fn is_single_scalar(bytes: Seq<u8>) -> bool {
    &&& valid_first_scalar(bytes)
    &&& length_of_first_scalar(bytes) == bytes.len()
}

/// The scalar value that `bytes` starts with.
pub open spec fn first_char(bytes: Seq<u8>) -> char {
    decode_first_scalar(bytes) as char
}

/// The scalar value that `bytes` ends with.
pub open spec fn last_char(bytes: Seq<u8>) -> char {
    first_char(take_last_scalar(bytes))
}

/// An encoded scalar value takes between one and four bytes.
pub proof fn lemma_char_len_range(c: char)
    ensures
        1 <= char_len(c) <= 4,
{
}

/// The encoding of one `char` is a single scalar that decodes to that `char`.
pub proof fn lemma_encode_single(c: char)
    ensures
        is_single_scalar(encode_scalar(c as u32)),
        first_char(encode_scalar(c as u32)) == c,
        encode_utf8(seq![c]) == encode_scalar(c as u32),
{
    let s = seq![c];
    assert(s.drop_first() =~= Seq::<char>::empty());
    assert(encode_utf8(s.drop_first()) =~= Seq::<u8>::empty());
    assert(encode_utf8(s) =~= encode_scalar(c as u32));
    encode_utf8_first_scalar(s);
    char_u32_cast(c, c as u32);
}

/// A single scalar is valid UTF-8, decodes to one `char`, and is that
/// `char`'s encoding.
pub proof fn lemma_single_scalar(b: Seq<u8>)
    requires
        is_single_scalar(b),
    ensures
        valid_utf8(b),
        1 <= b.len() <= 4,
        decode_utf8(b) == seq![first_char(b)],
        b == encode_scalar(first_char(b) as u32),
        char_len(first_char(b)) == b.len(),
{
    assert(pop_first_scalar(b) =~= Seq::<u8>::empty());
    assert(valid_utf8(pop_first_scalar(b)));
    assert(valid_utf8(b));
    assert(decode_utf8(pop_first_scalar(b)) =~= Seq::<char>::empty());
    assert(decode_utf8(b) =~= seq![first_char(b)]);
    decode_utf8_first_scalar(b);
    assert(take_first_scalar(b) =~= b);
}

/// Valid UTF-8 that decodes to one `char` is a single scalar.
pub proof fn lemma_decode_one_is_single(b: Seq<u8>)
    requires
        valid_utf8(b),
        decode_utf8(b).len() == 1,
    ensures
        is_single_scalar(b),
{
    if b.len() == 0 {
        assert(decode_utf8(b) =~= Seq::<char>::empty());
    } else {
        let rest = pop_first_scalar(b);
        if rest.len() != 0 {
            assert(decode_utf8(rest).len() >= 1);
        }
    }
}

/// The single scalars are the valid UTF-8 sequences that decode to exactly
/// one `char`: an empty sequence, one that holds more behind its first
/// scalar, and one that does not start with a scalar are none.
pub proof fn lemma_single_scalar_iff(b: Seq<u8>)
    ensures
        is_single_scalar(b) <==> valid_utf8(b) && decode_utf8(b).len() == 1,
{
    if is_single_scalar(b) {
        lemma_single_scalar(b);
    }
    if valid_utf8(b) && decode_utf8(b).len() == 1 {
        lemma_decode_one_is_single(b);
    }
}

/// Decoding distributes over the concatenation of valid parts.
pub proof fn lemma_decode_concat(a: Seq<u8>, b: Seq<u8>)
    requires
        valid_utf8(a),
        valid_utf8(b),
    ensures
        valid_utf8(a + b),
        decode_utf8(a + b) == decode_utf8(a) + decode_utf8(b),
    decreases a.len(),
{
    valid_utf8_concat(a, b);
    if a.len() == 0 {
        assert(a + b =~= b);
        assert(decode_utf8(a) =~= Seq::<char>::empty());
        assert(decode_utf8(a) + decode_utf8(b) =~= decode_utf8(b));
    } else {
        let rest = pop_first_scalar(a);
        assert(pop_first_scalar(a + b) =~= rest + b);
        lemma_decode_concat(rest, b);
        assert(decode_first_scalar(a + b) == decode_first_scalar(a));
        assert(decode_utf8(a + b) =~= decode_utf8(a) + decode_utf8(b));
    }
}

/// Two valid ranges that touch make one valid range, which decodes to the
/// texts of both, one after the other.
pub proof fn lemma_join(b: Seq<u8>, i: int, j: int, k: int)
    requires
        0 <= i <= j <= k <= b.len(),
        valid_utf8(b.subrange(i, j)),
        valid_utf8(b.subrange(j, k)),
    ensures
        valid_utf8(b.subrange(i, k)),
        decode_utf8(b.subrange(i, k)) == decode_utf8(b.subrange(i, j)) + decode_utf8(
            b.subrange(j, k),
        ),
{
    lemma_decode_concat(b.subrange(i, j), b.subrange(j, k));
    assert(b.subrange(i, k) =~= b.subrange(i, j) + b.subrange(j, k));
}

/// `b` with the bytes `b[i..j]` replaced by `m`.
pub open spec fn splice(b: Seq<u8>, i: int, j: int, m: Seq<u8>) -> Seq<u8> {
    b.subrange(0, i) + m + b.subrange(j, b.len() as int)
}

/// Replacing a range by as many bytes leaves the bytes on both sides where
/// they were.
pub proof fn lemma_splice(b: Seq<u8>, i: int, j: int, m: Seq<u8>)
    requires
        0 <= i <= j <= b.len(),
        m.len() == j - i,
    ensures
        splice(b, i, j, m).len() == b.len(),
        splice(b, i, j, m).subrange(0, i) == b.subrange(0, i),
        splice(b, i, j, m).subrange(i, j) == m,
        splice(b, i, j, m).subrange(j, b.len() as int) == b.subrange(j, b.len() as int),
        splice(b, i, j, b.subrange(i, j)) == b,
{
    let after = splice(b, i, j, m);
    assert(after.subrange(0, i) =~= b.subrange(0, i));
    assert(after.subrange(i, j) =~= m);
    assert(after.subrange(j, b.len() as int) =~= b.subrange(j, b.len() as int));
    assert(splice(b, i, j, b.subrange(i, j)) =~= b);
}

/// Valid UTF-8 is the encoding of what it decodes to, so its length is the
/// byte length of its text.
pub proof fn lemma_byte_len(b: Seq<u8>)
    requires
        valid_utf8(b),
    ensures
        encode_utf8(decode_utf8(b)) == b,
        byte_len(decode_utf8(b)) == b.len(),
{
    decode_utf8_encode_utf8(b);
}

/// The first scalar of non-empty valid UTF-8, and what is left behind it.
pub proof fn lemma_first_scalar(b: Seq<u8>)
    requires
        valid_utf8(b),
        b.len() > 0,
    ensures
        1 <= length_of_first_scalar(b) <= 4,
        length_of_first_scalar(b) <= b.len(),
        length_of_first_scalar(b) == char_len(first_char(b)),
        is_single_scalar(b.subrange(0, length_of_first_scalar(b))),
        first_char(b.subrange(0, length_of_first_scalar(b))) == first_char(b),
        valid_utf8(b.subrange(length_of_first_scalar(b), b.len() as int)),
        decode_utf8(b).len() > 0,
        decode_utf8(b)[0] == first_char(b),
        decode_utf8(b).drop_first() == decode_utf8(
            b.subrange(length_of_first_scalar(b), b.len() as int),
        ),
{
    let k = length_of_first_scalar(b);
    let head = b.subrange(0, k);
    assert(valid_first_scalar(head));
    assert(decode_first_scalar(head) == decode_first_scalar(b));
    lemma_single_scalar(head);
    assert(decode_utf8(b).drop_first() =~= decode_utf8(pop_first_scalar(b)));
}

/// The last scalar of non-empty valid UTF-8, and what stands before it.
pub proof fn lemma_last_scalar(b: Seq<u8>)
    requires
        valid_utf8(b),
        b.len() > 0,
    ensures
        1 <= length_of_last_scalar(b) <= 4,
        length_of_last_scalar(b) <= b.len(),
        length_of_last_scalar(b) == char_len(last_char(b)),
        is_single_scalar(take_last_scalar(b)),
        valid_utf8(b.subrange(0, b.len() - length_of_last_scalar(b))),
        decode_utf8(b).len() > 0,
        decode_utf8(b).last() == last_char(b),
        decode_utf8(b).drop_last() == decode_utf8(
            b.subrange(0, b.len() - length_of_last_scalar(b)),
        ),
    decreases b.len(),
{
    let n = b.len() as int;
    let f = length_of_first_scalar(b);
    let head = b.subrange(0, f);
    let rest = b.subrange(f, n);
    lemma_first_scalar(b);
    lemma_single_scalar(head);
    if rest.len() == 0 {
        assert(head =~= b);
        assert(take_last_scalar(b) =~= b);
        assert(b.subrange(0, n - f) =~= Seq::<u8>::empty());
        assert(decode_utf8(b) =~= seq![first_char(b)]);
        assert(decode_utf8(b).drop_last() =~= Seq::<char>::empty());
    } else {
        lemma_last_scalar(rest);
        let m = rest.len() as int;
        let k = length_of_last_scalar(rest);
        assert(forall|i: int| 0 <= i < m ==> rest[i] == b[f + i]);
        assert(length_of_last_scalar(b) == k);
        assert(take_last_scalar(b) =~= take_last_scalar(rest));
        let front = rest.subrange(0, m - k);
        assert(b.subrange(0, n - k) =~= head + front);
        lemma_decode_concat(head, front);
        assert(b =~= head + rest);
        lemma_decode_concat(head, rest);
        lemma_single_scalar(take_last_scalar(rest));
        assert(decode_utf8(b) =~= decode_utf8(head) + decode_utf8(rest));
        assert(decode_utf8(rest) =~= decode_utf8(rest).drop_last().push(decode_utf8(rest).last()));
        assert(decode_utf8(b).drop_last() =~= decode_utf8(head) + decode_utf8(front));
    }
}

/// A scalar boundary of valid UTF-8 splits it into two valid halves.
pub proof fn lemma_boundary_splits(b: Seq<u8>, i: int)
    requires
        valid_utf8(b),
        is_char_boundary(b, i),
    ensures
        0 <= i <= b.len(),
        valid_utf8(b.subrange(0, i)),
        valid_utf8(b.subrange(i, b.len() as int)),
{
    valid_utf8_split(b, i);
}

/// Where both halves are valid UTF-8, the whole is, and the cut is a scalar
/// boundary of it.
pub proof fn lemma_splits_boundary(b: Seq<u8>, i: int)
    requires
        0 <= i <= b.len(),
        valid_utf8(b.subrange(0, i)),
        valid_utf8(b.subrange(i, b.len() as int)),
    ensures
        valid_utf8(b),
        is_char_boundary(b, i),
{
    let n = b.len() as int;
    assert(b =~= b.subrange(0, i) + b.subrange(i, n));
    valid_utf8_concat(b.subrange(0, i), b.subrange(i, n));
    is_char_boundary_start_end_of_seq(b);
    if 0 < i < n {
        let tail = b.subrange(i, n);
        assert(tail[0] == b[i]);
        assert(valid_first_scalar(tail));
        assert(!is_continuation_byte(b[i]));
        is_char_boundary_iff_not_is_continuation_byte(b, i);
    }
}

/// The bytes between two scalar boundaries are valid UTF-8.
pub proof fn lemma_boundary_range(b: Seq<u8>, i: int, j: int)
    requires
        valid_utf8(b),
        is_char_boundary(b, i),
        is_char_boundary(b, j),
        i <= j,
    ensures
        0 <= i <= j <= b.len(),
        valid_utf8(b.subrange(0, i)),
        valid_utf8(b.subrange(i, j)),
        valid_utf8(b.subrange(j, b.len() as int)),
{
    let n = b.len() as int;
    lemma_boundary_splits(b, i);
    lemma_boundary_splits(b, j);
    let tail = b.subrange(i, n);
    is_char_boundary_start_end_of_seq(tail);
    if 0 < j - i < tail.len() {
        assert(tail[j - i] == b[j]);
        is_char_boundary_iff_not_is_continuation_byte(b, j);
        is_char_boundary_iff_not_is_continuation_byte(tail, j - i);
    }
    assert(is_char_boundary(tail, j - i));
    valid_utf8_split(tail, j - i);
    assert(tail.subrange(0, j - i) =~= b.subrange(i, j));
}

/// `char::len_utf8` returns the number of bytes that the `char` takes when
/// it is encoded in UTF-8.
pub assume_specification[ std::primitive::char::len_utf8 ](c: char) -> (n: usize)
    ensures
        n == char_len(c),
;

/// `char::from_u32` returns the `char` with the given scalar value, and
/// `None` where the number is no scalar value.
pub assume_specification[ std::primitive::char::from_u32 ](i: u32) -> (r: Option<char>)
    ensures
        is_scalar(i) ==> r == Some(i as char),
        !is_scalar(i) ==> r is None,
;

/// The error of `core::str::from_utf8`; nothing is read from it.
#[verifier::external_type_specification]
#[verifier::external_body]
pub struct ExUtf8Error(core::str::Utf8Error);

/// `core::str::from_utf8` succeeds on exactly the byte slices that are valid
/// UTF-8, and the string slice it then returns is made of the same bytes.
pub assume_specification[ core::str::from_utf8 ](v: &[u8]) -> (r: Result<
    &str,
    core::str::Utf8Error,
>)
    ensures
        r is Ok <==> valid_utf8(v@),
        r matches Ok(s) ==> encode_utf8(s@) == v@,
;

/// The text that the valid UTF-8 `bytes` spell.
pub fn text_of(bytes: &[u8]) -> (s: &str)
    requires
        valid_utf8(bytes@),
    ensures
        s@ == decode_utf8(bytes@),
        encode_utf8(s@) == bytes@,
{
    match core::str::from_utf8(bytes) {
        Ok(s) => {
            proof {
                encode_utf8_decode_utf8(s@);
            }
            s
        },
        Err(_) => vstd::pervasive::unreached(),
    }
}

/// Whether `b` has the form of a continuation byte.
pub fn is_continuation(b: u8) -> (r: bool)
    ensures
        r == is_continuation_byte(b),
{
    0x80 <= b && b <= 0xbf
}

/// Byte length of the scalar that starts at `at`, in the valid UTF-8
/// `bytes[at..end]`.
pub fn first_scalar_len(bytes: &[u8], at: usize, end: usize) -> (k: usize)
    requires
        at < end <= bytes@.len(),
        valid_utf8(bytes@.subrange(at as int, end as int)),
    ensures
        k == length_of_first_scalar(bytes@.subrange(at as int, end as int)),
        1 <= k <= 4,
        at + k <= end,
{
    let ghost sub = bytes@.subrange(at as int, end as int);
    proof {
        lemma_first_scalar(sub);
        assert(sub[0] == bytes@[at as int]);
    }
    let b = bytes[at];
    if b < 0x80 {
        1
    } else if b < 0xe0 {
        2
    } else if b < 0xf0 {
        3
    } else {
        4
    }
}

/// Byte length of the scalar that ends at `at`, in the valid UTF-8
/// `bytes[start..at]`.
pub fn last_scalar_len(bytes: &[u8], start: usize, at: usize) -> (k: usize)
    requires
        start < at <= bytes@.len(),
        valid_utf8(bytes@.subrange(start as int, at as int)),
    ensures
        k == length_of_last_scalar(bytes@.subrange(start as int, at as int)),
        1 <= k <= 4,
        start + k <= at,
{
    let ghost sub = bytes@.subrange(start as int, at as int);
    proof {
        lemma_last_scalar(sub);
        assert(forall|i: int| 0 <= i < sub.len() ==> sub[i] == bytes@[start + i]);
    }
    if !is_continuation(bytes[at - 1]) {
        1
    } else if !is_continuation(bytes[at - 2]) {
        2
    } else if !is_continuation(bytes[at - 3]) {
        3
    } else {
        4
    }
}

/// The code point that the leading byte and its continuation bytes at `at`
/// spell, whether or not it is a scalar value.
fn code_point(bytes: &[u8], at: usize, end: usize) -> (cp: u32)
    requires
        at < end <= bytes@.len(),
        valid_leading_and_continuation_bytes_first_codepoint(
            bytes@.subrange(at as int, end as int),
        ),
    ensures
        cp == decode_first_codepoint(bytes@.subrange(at as int, end as int)),
{
    let ghost sub = bytes@.subrange(at as int, end as int);
    assert(forall|i: int| 0 <= i < sub.len() ==> sub[i] == bytes@[at + i]);
    let b0 = bytes[at];
    if b0 < 0x80 {
        (b0 & 0x7f) as u32
    } else if b0 < 0xe0 {
        let b1 = bytes[at + 1];
        (((b0 & 0x1f) as u32) << 6) | ((b1 & 0x3f) as u32)
    } else if b0 < 0xf0 {
        let b1 = bytes[at + 1];
        let b2 = bytes[at + 2];
        (((b0 & 0x0f) as u32) << 12) | (((b1 & 0x3f) as u32) << 6) | ((b2 & 0x3f) as u32)
    } else {
        let b1 = bytes[at + 1];
        let b2 = bytes[at + 2];
        let b3 = bytes[at + 3];
        (((b0 & 0x07) as u32) << 18) | (((b1 & 0x3f) as u32) << 12) | (((b2 & 0x3f) as u32) << 6)
            | ((b3 & 0x3f) as u32)
    }
}

/// Whether `bytes` is the encoding of exactly one scalar value, with nothing
/// after it. Any bytes may be asked about, valid UTF-8 or not.
pub fn holds_single_scalar(bytes: &[u8]) -> (r: bool)
    ensures
        r == is_single_scalar(bytes@),
{
    let n = bytes.len();
    if n == 0 || n > 4 {
        return false;
    }
    let b0 = bytes[0];
    if b0 < 0x80 {
        proof {
            assert(((b0 & 0x7f) as u32) <= 0x7f) by (bit_vector);
        }
        n == 1
    } else if b0 < 0xc0 {
        false
    } else if b0 < 0xe0 {
        if n != 2 || !is_continuation(bytes[1]) {
            return false;
        }
        proof {
            let b1 = bytes@[1];
            assert(((((b0 & 0x1f) as u32) << 6) | ((b1 & 0x3f) as u32)) <= 0x7ff) by (bit_vector);
        }
        let cp = code_point(bytes, 0, n);
        proof {
            assert(bytes@.subrange(0, n as int) =~= bytes@);
        }
        0x80 <= cp
    } else if b0 < 0xf0 {
        if n != 3 || !is_continuation(bytes[1]) || !is_continuation(bytes[2]) {
            return false;
        }
        let cp = code_point(bytes, 0, n);
        proof {
            assert(bytes@.subrange(0, n as int) =~= bytes@);
        }
        0x800 <= cp && !(0xd800 <= cp && cp <= 0xdfff)
    } else if b0 < 0xf8 {
        if n != 4 || !is_continuation(bytes[1]) || !is_continuation(bytes[2]) || !is_continuation(
            bytes[3],
        ) {
            return false;
        }
        let cp = code_point(bytes, 0, n);
        proof {
            assert(bytes@.subrange(0, n as int) =~= bytes@);
        }
        0x10000 <= cp && cp <= 0x10ffff
    } else {
        false
    }
}

/// A code point of valid UTF-8 is a scalar value.
pub proof fn lemma_first_scalar_is_scalar(b: Seq<u8>)
    requires
        valid_first_scalar(b),
    ensures
        is_scalar(decode_first_scalar(b)),
{
    let b0 = b[0];
    if is_leading_byte_width_1(b0) {
        assert(((b0 & 0x7f) as u32) <= 0x7f) by (bit_vector);
    } else if is_leading_byte_width_2(b0) {
        let b1 = b[1];
        assert(((((b0 & 0x1f) as u32) << 6) | ((b1 & 0x3f) as u32)) <= 0x7ff) by (bit_vector);
    } else if is_leading_byte_width_3(b0) {
        let b1 = b[1];
        let b2 = b[2];
        assert(((((b0 & 0x0f) as u32) << 12) | (((b1 & 0x3f) as u32) << 6) | ((b2 & 0x3f) as u32))
            <= 0xffff) by (bit_vector);
    } else {
    }
}

/// The scalar that starts at `at`, in the valid UTF-8 `bytes[at..end]`.
pub fn decode_first(bytes: &[u8], at: usize, end: usize) -> (c: char)
    requires
        at < end <= bytes@.len(),
        valid_utf8(bytes@.subrange(at as int, end as int)),
    ensures
        c == first_char(bytes@.subrange(at as int, end as int)),
        c == decode_utf8(bytes@.subrange(at as int, end as int))[0],
{
    proof {
        lemma_first_scalar(bytes@.subrange(at as int, end as int));
        lemma_first_scalar_is_scalar(bytes@.subrange(at as int, end as int));
    }
    let cp = code_point(bytes, at, end);
    match char::from_u32(cp) {
        Some(c) => c,
        None => vstd::pervasive::unreached(),
    }
}

/// The scalar that ends at `at`, in the valid UTF-8 `bytes[start..at]`.
pub fn decode_last(bytes: &[u8], start: usize, at: usize) -> (c: char)
    requires
        start < at <= bytes@.len(),
        valid_utf8(bytes@.subrange(start as int, at as int)),
    ensures
        c == last_char(bytes@.subrange(start as int, at as int)),
        c == decode_utf8(bytes@.subrange(start as int, at as int)).last(),
{
    let ghost sub = bytes@.subrange(start as int, at as int);
    let k = last_scalar_len(bytes, start, at);
    proof {
        lemma_last_scalar(sub);
        lemma_single_scalar(take_last_scalar(sub));
        assert(bytes@.subrange(at - k, at as int) =~= take_last_scalar(sub));
    }
    decode_first(bytes, at - k, at)
}

} // verus!
