//! The mathematical model of a view: the text of the base buffer, cut in
//! three at the two bounds of the view. Growing and shrinking a view moves
//! scalar values from one part to its neighbour and leaves their order, and
//! the base, as they are.
use vstd::prelude::*;

verus! {

/// A base text cut in three: what lies left of the view, what the view
/// shows, and what lies right of it.
pub struct Window {
    pub left: Seq<char>,
    pub text: Seq<char>,
    pub right: Seq<char>,
}

impl Window {
    /// The window that shows all of `s`.
    pub open spec fn whole(s: Seq<char>) -> Window {
        Window { left: Seq::empty(), text: s, right: Seq::empty() }
    }

    /// The text of the base buffer.
    pub open spec fn base(self) -> Seq<char> {
        self.left + self.text + self.right
    }

    /// The empty window at the right bound.
    pub open spec fn shrink_to_right(self) -> Window {
        Window { left: self.left + self.text, text: Seq::empty(), right: self.right }
    }

    /// The empty window at the left bound.
    pub open spec fn shrink_to_left(self) -> Window {
        Window { left: self.left, text: Seq::empty(), right: self.text + self.right }
    }

    /// The window grown by the first `n` scalars right of it.
    pub open spec fn extend_right(self, n: int) -> Window
        recommends
            0 <= n <= self.right.len(),
    {
        Window { left: self.left, text: self.text + self.right.take(n), right: self.right.skip(n) }
    }

    /// The window without its last `n` scalars.
    pub open spec fn reduce_right(self, n: int) -> Window
        recommends
            0 <= n <= self.text.len(),
    {
        Window {
            left: self.left,
            text: self.text.take(self.text.len() - n),
            right: self.text.skip(self.text.len() - n) + self.right,
        }
    }

    /// The window grown by the last `n` scalars left of it.
    pub open spec fn extend_left(self, n: int) -> Window
        recommends
            0 <= n <= self.left.len(),
    {
        Window {
            left: self.left.take(self.left.len() - n),
            text: self.left.skip(self.left.len() - n) + self.text,
            right: self.right,
        }
    }

    /// The window without its first `n` scalars.
    pub open spec fn reduce_left(self, n: int) -> Window
        recommends
            0 <= n <= self.text.len(),
    {
        Window { left: self.left + self.text.take(n), text: self.text.skip(n), right: self.right }
    }
}

/// `f` answered `true` on each of the first `n` scalars of `s`, and `false`
/// on the one behind them, if there is one: a greedy scan from the front of
/// `s` stops after exactly `n` scalars.
pub open spec fn front_run<F: Fn(char) -> bool>(f: F, s: Seq<char>, n: int) -> bool {
    &&& 0 <= n <= s.len()
    &&& forall|i: int| 0 <= i < n ==> call_ensures(f, (#[trigger] s[i],), true)
    &&& n < s.len() ==> call_ensures(f, (s[n],), false)
}

/// `f` answered `true` on each of the last `n` scalars of `s`, and `false`
/// on the one before them, if there is one: a greedy scan from the back of
/// `s` stops after exactly `n` scalars.
pub open spec fn back_run<F: Fn(char) -> bool>(f: F, s: Seq<char>, n: int) -> bool {
    &&& 0 <= n <= s.len()
    &&& forall|i: int| s.len() - n <= i < s.len() ==> call_ensures(f, (#[trigger] s[i],), true)
    &&& n < s.len() ==> call_ensures(f, (s[s.len() - n - 1],), false)
}

impl Window {
    /// `to` is this window grown to the right by a greedy scan with `f`.
    pub open spec fn extends_right_while<F: Fn(char) -> bool>(self, f: F, to: Window) -> bool {
        &&& front_run(f, self.right, to.text.len() - self.text.len())
        &&& to == self.extend_right(to.text.len() - self.text.len())
    }

    /// `to` is this window shrunk from the right by a greedy scan with `f`.
    pub open spec fn reduces_right_while<F: Fn(char) -> bool>(self, f: F, to: Window) -> bool {
        &&& back_run(f, self.text, self.text.len() - to.text.len())
        &&& to == self.reduce_right(self.text.len() - to.text.len())
    }

    /// `to` is this window grown to the left by a greedy scan with `f`.
    pub open spec fn extends_left_while<F: Fn(char) -> bool>(self, f: F, to: Window) -> bool {
        &&& back_run(f, self.left, to.text.len() - self.text.len())
        &&& to == self.extend_left(to.text.len() - self.text.len())
    }

    /// `to` is this window shrunk from the left by a greedy scan with `f`.
    pub open spec fn reduces_left_while<F: Fn(char) -> bool>(self, f: F, to: Window) -> bool {
        &&& front_run(f, self.text, self.text.len() - to.text.len())
        &&& to == self.reduce_left(self.text.len() - to.text.len())
    }

    /// `to` is this window shrunk from the left by a greedy scan with `f`,
    /// and what that left then shrunk from the right by another.
    pub open spec fn trims_while<F: Fn(char) -> bool>(self, f: F, to: Window) -> bool {
        let mid = self.reduce_left(to.left.len() - self.left.len());
        &&& self.reduces_left_while(f, mid)
        &&& mid.reduces_right_while(f, to)
    }
}

/// Every answer of `f` is the value of `p`.
pub open spec fn decides<F: Fn(char) -> bool>(f: F, p: spec_fn(char) -> bool) -> bool {
    forall|c: char, r: bool| call_ensures(f, (c,), r) ==> r == p(c)
}

/// Length of the longest prefix of `s` whose scalars all satisfy `p`.
pub open spec fn prefix_len(p: spec_fn(char) -> bool, s: Seq<char>) -> int
    decreases s.len(),
{
    if s.len() > 0 && p(s[0]) {
        1 + prefix_len(p, s.drop_first())
    } else {
        0
    }
}

/// Length of the longest suffix of `s` whose scalars all satisfy `p`.
pub open spec fn suffix_len(p: spec_fn(char) -> bool, s: Seq<char>) -> int
    decreases s.len(),
{
    if s.len() > 0 && p(s.last()) {
        1 + suffix_len(p, s.drop_last())
    } else {
        0
    }
}

/// With a predicate that always answers the same, a greedy scan from the
/// front takes the longest matching prefix.
pub proof fn lemma_front_run_is_prefix_len<F: Fn(char) -> bool>(
    f: F,
    p: spec_fn(char) -> bool,
    s: Seq<char>,
    n: int,
)
    requires
        decides(f, p),
        front_run(f, s, n),
    ensures
        n == prefix_len(p, s),
    decreases s.len(),
{
    if n > 0 {
        assert(call_ensures(f, (s[0],), true));
        let t = s.drop_first();
        assert forall|i: int| 0 <= i < n - 1 implies call_ensures(f, (#[trigger] t[i],), true) by {
            assert(t[i] == s[i + 1]);
        }
        if n - 1 < t.len() {
            assert(t[n - 1] == s[n]);
        }
        lemma_front_run_is_prefix_len(f, p, t, n - 1);
    } else if s.len() > 0 {
        assert(call_ensures(f, (s[0],), false));
    }
}

/// With a predicate that always answers the same, a greedy scan from the
/// back takes the longest matching suffix.
pub proof fn lemma_back_run_is_suffix_len<F: Fn(char) -> bool>(
    f: F,
    p: spec_fn(char) -> bool,
    s: Seq<char>,
    n: int,
)
    requires
        decides(f, p),
        back_run(f, s, n),
    ensures
        n == suffix_len(p, s),
    decreases s.len(),
{
    if n > 0 {
        assert(call_ensures(f, (s[s.len() - 1],), true));
        let t = s.drop_last();
        assert forall|i: int| t.len() - (n - 1) <= i < t.len() implies call_ensures(
            f,
            (#[trigger] t[i],),
            true,
        ) by {
            assert(t[i] == s[i]);
        }
        if n - 1 < t.len() {
            assert(t[t.len() - (n - 1) - 1] == s[s.len() - n - 1]);
        }
        lemma_back_run_is_suffix_len(f, p, t, n - 1);
    } else if s.len() > 0 {
        assert(call_ensures(f, (s[s.len() - 1],), false));
    }
}

/// Growing a window to the right by `n` scalars and then shrinking it on the
/// right by `n` gives the window back.
pub proof fn lemma_extend_reduce_right(w: Window, n: int)
    requires
        0 <= n <= w.right.len(),
    ensures
        n <= w.extend_right(n).text.len(),
        w.extend_right(n).reduce_right(n) == w,
        w.extend_right(n).base() == w.base(),
{
    let e = w.extend_right(n);
    let r = e.reduce_right(n);
    assert(r.text =~= w.text);
    assert(r.right =~= w.right);
    assert(e.base() =~= w.base());
}

/// Growing a window to the left by `n` scalars and then shrinking it on the
/// left by `n` gives the window back.
pub proof fn lemma_extend_reduce_left(w: Window, n: int)
    requires
        0 <= n <= w.left.len(),
    ensures
        n <= w.extend_left(n).text.len(),
        w.extend_left(n).reduce_left(n) == w,
        w.extend_left(n).base() == w.base(),
{
    let e = w.extend_left(n);
    let r = e.reduce_left(n);
    assert(r.text =~= w.text);
    assert(r.left =~= w.left);
    assert(e.base() =~= w.base());
}

} // verus!
