//! Walking a range of valid UTF-8 scalar by scalar, forwards from its start
//! or backwards from its end, without ever stopping inside a scalar.
use crate::utf8::{
    decode_first, decode_last, first_scalar_len, last_scalar_len, lemma_decode_concat,
    lemma_first_scalar, lemma_last_scalar, lemma_single_scalar,
};
use crate::window::{back_run, front_run};
use vstd::prelude::*;
use vstd::utf8::*;

verus! {

/// The position `n` scalars behind `from`, or `None` where `bytes[from..to]`
/// holds fewer than `n` scalars.
pub fn advance(bytes: &[u8], from: usize, to: usize, n: usize) -> (r: Option<usize>)
    requires
        from <= to <= bytes@.len(),
        valid_utf8(bytes@.subrange(from as int, to as int)),
    ensures
        r is Some <==> n <= decode_utf8(bytes@.subrange(from as int, to as int)).len(),
        r matches Some(p) ==> {
            &&& from <= p <= to
            &&& valid_utf8(bytes@.subrange(from as int, p as int))
            &&& valid_utf8(bytes@.subrange(p as int, to as int))
            &&& decode_utf8(bytes@.subrange(from as int, p as int)) == decode_utf8(
                bytes@.subrange(from as int, to as int),
            ).take(n as int)
            &&& decode_utf8(bytes@.subrange(p as int, to as int)) == decode_utf8(
                bytes@.subrange(from as int, to as int),
            ).skip(n as int)
        },
{
    let ghost s = decode_utf8(bytes@.subrange(from as int, to as int));
    let mut pos: usize = from;
    let mut i: usize = 0;
    proof {
        assert(bytes@.subrange(from as int, from as int) =~= Seq::<u8>::empty());
        assert(decode_utf8(bytes@.subrange(from as int, from as int)) =~= s.take(0));
        assert(s.skip(0) =~= s);
    }
    while i < n
        invariant
            from <= pos <= to <= bytes@.len(),
            i <= n,
            i <= s.len(),
            s == decode_utf8(bytes@.subrange(from as int, to as int)),
            valid_utf8(bytes@.subrange(from as int, pos as int)),
            valid_utf8(bytes@.subrange(pos as int, to as int)),
            decode_utf8(bytes@.subrange(from as int, pos as int)) == s.take(i as int),
            decode_utf8(bytes@.subrange(pos as int, to as int)) == s.skip(i as int),
        decreases n - i,
    {
        if pos == to {
            proof {
                assert(bytes@.subrange(pos as int, to as int) =~= Seq::<u8>::empty());
                assert(s.skip(i as int).len() == 0);
            }
            return None;
        }
        let k = first_scalar_len(bytes, pos, to);
        proof {
            let done = bytes@.subrange(from as int, pos as int);
            let rest = bytes@.subrange(pos as int, to as int);
            let head = rest.subrange(0, k as int);
            lemma_first_scalar(rest);
            lemma_single_scalar(head);
            lemma_decode_concat(done, head);
            assert(bytes@.subrange(from as int, pos + k) =~= done + head);
            assert(bytes@.subrange(pos + k, to as int) =~= rest.subrange(k as int, rest.len() as int));
            assert(s.skip(i as int).drop_first() =~= s.skip(i + 1));
            assert(s.take(i as int) + seq![s.skip(i as int)[0]] =~= s.take(i + 1));
        }
        pos = pos + k;
        i = i + 1;
    }
    Some(pos)
}

/// The position `n` scalars before `to`, or `None` where `bytes[from..to]`
/// holds fewer than `n` scalars.
pub fn retreat(bytes: &[u8], from: usize, to: usize, n: usize) -> (r: Option<usize>)
    requires
        from <= to <= bytes@.len(),
        valid_utf8(bytes@.subrange(from as int, to as int)),
    ensures
        r is Some <==> n <= decode_utf8(bytes@.subrange(from as int, to as int)).len(),
        r matches Some(p) ==> {
            &&& from <= p <= to
            &&& valid_utf8(bytes@.subrange(from as int, p as int))
            &&& valid_utf8(bytes@.subrange(p as int, to as int))
            &&& decode_utf8(bytes@.subrange(from as int, p as int)) == decode_utf8(
                bytes@.subrange(from as int, to as int),
            ).take(
                decode_utf8(bytes@.subrange(from as int, to as int)).len() - n,
            )
            &&& decode_utf8(bytes@.subrange(p as int, to as int)) == decode_utf8(
                bytes@.subrange(from as int, to as int),
            ).skip(
                decode_utf8(bytes@.subrange(from as int, to as int)).len() - n,
            )
        },
{
    let ghost s = decode_utf8(bytes@.subrange(from as int, to as int));
    let mut pos: usize = to;
    let mut i: usize = 0;
    proof {
        assert(bytes@.subrange(to as int, to as int) =~= Seq::<u8>::empty());
        assert(decode_utf8(bytes@.subrange(to as int, to as int)) =~= s.skip(s.len() as int));
        assert(s.take(s.len() as int) =~= s);
    }
    while i < n
        invariant
            from <= pos <= to <= bytes@.len(),
            i <= n,
            i <= s.len(),
            s == decode_utf8(bytes@.subrange(from as int, to as int)),
            valid_utf8(bytes@.subrange(from as int, pos as int)),
            valid_utf8(bytes@.subrange(pos as int, to as int)),
            decode_utf8(bytes@.subrange(from as int, pos as int)) == s.take(s.len() - i),
            decode_utf8(bytes@.subrange(pos as int, to as int)) == s.skip(s.len() - i),
        decreases n - i,
    {
        if pos == from {
            proof {
                assert(bytes@.subrange(from as int, pos as int) =~= Seq::<u8>::empty());
                assert(s.take(s.len() - i).len() == 0);
            }
            return None;
        }
        let k = last_scalar_len(bytes, from, pos);
        proof {
            let done = bytes@.subrange(pos as int, to as int);
            let rest = bytes@.subrange(from as int, pos as int);
            let tail = take_last_scalar(rest);
            lemma_last_scalar(rest);
            lemma_single_scalar(tail);
            lemma_decode_concat(tail, done);
            assert(bytes@.subrange(pos - k, to as int) =~= tail + done);
            assert(bytes@.subrange(from as int, pos - k) =~= rest.subrange(0, rest.len() - k));
            let m = s.len() - i;
            assert(s.take(m).drop_last() =~= s.take(m - 1));
            assert(seq![s.take(m).last()] + s.skip(m) =~= s.skip(m - 1));
        }
        pos = pos - k;
        i = i + 1;
    }
    Some(pos)
}

/// The position behind the scalars at the start of `bytes[from..to]` on
/// which `f` answers `true`, up to the first on which it answers `false`.
pub fn advance_while<F: Fn(char) -> bool>(bytes: &[u8], from: usize, to: usize, f: &F) -> (p:
    usize)
    requires
        from <= to <= bytes@.len(),
        valid_utf8(bytes@.subrange(from as int, to as int)),
        forall|c: char| call_requires(*f, (c,)),
    ensures
        from <= p <= to,
        valid_utf8(bytes@.subrange(from as int, p as int)),
        valid_utf8(bytes@.subrange(p as int, to as int)),
        front_run(
            *f,
            decode_utf8(bytes@.subrange(from as int, to as int)),
            decode_utf8(bytes@.subrange(from as int, p as int)).len() as int,
        ),
        decode_utf8(bytes@.subrange(from as int, p as int)) == decode_utf8(
            bytes@.subrange(from as int, to as int),
        ).take(decode_utf8(bytes@.subrange(from as int, p as int)).len() as int),
        decode_utf8(bytes@.subrange(p as int, to as int)) == decode_utf8(
            bytes@.subrange(from as int, to as int),
        ).skip(decode_utf8(bytes@.subrange(from as int, p as int)).len() as int),
{
    let ghost s = decode_utf8(bytes@.subrange(from as int, to as int));
    let ghost mut i: int = 0;
    let mut pos: usize = from;
    let mut open = true;
    proof {
        assert(bytes@.subrange(from as int, from as int) =~= Seq::<u8>::empty());
        assert(decode_utf8(bytes@.subrange(from as int, from as int)) =~= s.take(0));
        assert(s.skip(0) =~= s);
    }
    while open && pos < to
        invariant
            from <= pos <= to <= bytes@.len(),
            0 <= i <= s.len(),
            s == decode_utf8(bytes@.subrange(from as int, to as int)),
            forall|c: char| call_requires(*f, (c,)),
            valid_utf8(bytes@.subrange(from as int, pos as int)),
            valid_utf8(bytes@.subrange(pos as int, to as int)),
            decode_utf8(bytes@.subrange(from as int, pos as int)) == s.take(i),
            decode_utf8(bytes@.subrange(pos as int, to as int)) == s.skip(i),
            forall|j: int| 0 <= j < i ==> call_ensures(*f, (#[trigger] s[j],), true),
            !open ==> i < s.len() && call_ensures(*f, (s[i],), false),
        decreases to - pos + (if open { 1int } else { 0int }),
    {
        let c = decode_first(bytes, pos, to);
        proof {
            lemma_first_scalar(bytes@.subrange(pos as int, to as int));
            assert(s.skip(i)[0] == s[i]);
        }
        if f(c) {
            let k = first_scalar_len(bytes, pos, to);
            proof {
                let done = bytes@.subrange(from as int, pos as int);
                let rest = bytes@.subrange(pos as int, to as int);
                let head = rest.subrange(0, k as int);
                lemma_first_scalar(rest);
                lemma_single_scalar(head);
                lemma_decode_concat(done, head);
                assert(bytes@.subrange(from as int, pos + k) =~= done + head);
                assert(bytes@.subrange(pos + k, to as int) =~= rest.subrange(
                    k as int,
                    rest.len() as int,
                ));
                assert(s.skip(i).drop_first() =~= s.skip(i + 1));
                assert(s.take(i) + seq![s.skip(i)[0]] =~= s.take(i + 1));
                i = i + 1;
            }
            pos = pos + k;
        } else {
            open = false;
        }
    }
    proof {
        if open {
            assert(bytes@.subrange(pos as int, to as int) =~= Seq::<u8>::empty());
            assert(s.skip(i).len() == 0);
        }
    }
    pos
}

/// The position before the scalars at the end of `bytes[from..to]` on which
/// `f` answers `true`, back to the last on which it answers `false`.
pub fn retreat_while<F: Fn(char) -> bool>(bytes: &[u8], from: usize, to: usize, f: &F) -> (p:
    usize)
    requires
        from <= to <= bytes@.len(),
        valid_utf8(bytes@.subrange(from as int, to as int)),
        forall|c: char| call_requires(*f, (c,)),
    ensures
        from <= p <= to,
        valid_utf8(bytes@.subrange(from as int, p as int)),
        valid_utf8(bytes@.subrange(p as int, to as int)),
        back_run(
            *f,
            decode_utf8(bytes@.subrange(from as int, to as int)),
            decode_utf8(bytes@.subrange(p as int, to as int)).len() as int,
        ),
        decode_utf8(bytes@.subrange(from as int, p as int)) == decode_utf8(
            bytes@.subrange(from as int, to as int),
        ).take(
            decode_utf8(bytes@.subrange(from as int, to as int)).len() - decode_utf8(
                bytes@.subrange(p as int, to as int),
            ).len(),
        ),
        decode_utf8(bytes@.subrange(p as int, to as int)) == decode_utf8(
            bytes@.subrange(from as int, to as int),
        ).skip(
            decode_utf8(bytes@.subrange(from as int, to as int)).len() - decode_utf8(
                bytes@.subrange(p as int, to as int),
            ).len(),
        ),
{
    let ghost s = decode_utf8(bytes@.subrange(from as int, to as int));
    let ghost mut i: int = 0;
    let mut pos: usize = to;
    let mut open = true;
    proof {
        assert(bytes@.subrange(to as int, to as int) =~= Seq::<u8>::empty());
        assert(decode_utf8(bytes@.subrange(to as int, to as int)) =~= s.skip(s.len() as int));
        assert(s.take(s.len() as int) =~= s);
    }
    while open && pos > from
        invariant
            from <= pos <= to <= bytes@.len(),
            0 <= i <= s.len(),
            s == decode_utf8(bytes@.subrange(from as int, to as int)),
            forall|c: char| call_requires(*f, (c,)),
            valid_utf8(bytes@.subrange(from as int, pos as int)),
            valid_utf8(bytes@.subrange(pos as int, to as int)),
            decode_utf8(bytes@.subrange(from as int, pos as int)) == s.take(s.len() - i),
            decode_utf8(bytes@.subrange(pos as int, to as int)) == s.skip(s.len() - i),
            forall|j: int| s.len() - i <= j < s.len() ==> call_ensures(*f, (#[trigger] s[j],), true),
            !open ==> i < s.len() && call_ensures(*f, (s[s.len() - i - 1],), false),
        decreases pos - from + (if open { 1int } else { 0int }),
    {
        let c = decode_last(bytes, from, pos);
        proof {
            lemma_last_scalar(bytes@.subrange(from as int, pos as int));
            assert(s.take(s.len() - i).last() == s[s.len() - i - 1]);
        }
        if f(c) {
            let k = last_scalar_len(bytes, from, pos);
            proof {
                let done = bytes@.subrange(pos as int, to as int);
                let rest = bytes@.subrange(from as int, pos as int);
                let tail = take_last_scalar(rest);
                lemma_last_scalar(rest);
                lemma_single_scalar(tail);
                lemma_decode_concat(tail, done);
                assert(bytes@.subrange(pos - k, to as int) =~= tail + done);
                assert(bytes@.subrange(from as int, pos - k) =~= rest.subrange(
                    0,
                    rest.len() - k,
                ));
                let m = s.len() - i;
                assert(s.take(m).drop_last() =~= s.take(m - 1));
                assert(seq![s.take(m).last()] + s.skip(m) =~= s.skip(m - 1));
                i = i + 1;
            }
            pos = pos - k;
        } else {
            open = false;
        }
    }
    proof {
        if open {
            assert(bytes@.subrange(from as int, pos as int) =~= Seq::<u8>::empty());
            assert(s.take(s.len() - i).len() == 0);
        }
    }
    pos
}

} // verus!
