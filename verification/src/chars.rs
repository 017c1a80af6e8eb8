//! Parsers that read characters one at a time: a given character, a given
//! string, and the end of the input.
use vstd::prelude::*;
use std::marker::PhantomData;
use crate::combinators::{message_with, unexpected_text, DebugText, And, Ap, Bracket, LiftA2, Mapped, Sequence, Surrounded, Void};
use crate::repeat::{chain, iter_pre};
use crate::parser::{Input, ParseErr, ParseResult, Parser};

verus! {

/// Reads one character and succeeds when it is `c`.
pub struct CharParser<I> {
    pub c: char,
    pub phantom: PhantomData<I>,
}

impl<I: Input<Item = char>> Parser<I> for CharParser<I> {
    type Output = char;

    open spec fn parse_pre(&self, s: Seq<char>) -> bool {
        true
    }

    open spec fn accepts(&self, s: Seq<char>, rest: Seq<char>, o: char) -> bool {
        s.len() > 0 && s[0] == self.c && rest == s.drop_first() && o == self.c
    }

    open spec fn rejects(&self, s: Seq<char>, e: ParseErr) -> bool {
        if s.len() == 0 {
            e == ParseErr::EOF()
        } else {
            s[0] != self.c && e == ParseErr::Expected(self.c)
        }
    }

    fn parse(&self, input: I) -> (r: ParseResult<I, char>) {
        match input.uncons() {
            None => Err(ParseErr::EOF()),
            Some((c_, i)) => {
                if self.c == c_ {
                    Ok((i, self.c))
                } else {
                    Err(ParseErr::Expected(self.c))
                }
            },
        }
    }
}

pub fn char<I: Input<Item = char>>(c: char) -> (p: CharParser<I>)
    ensures
        p.c == c,
{
    CharParser { c, phantom: PhantomData }
}

/// What reading the literal `t` from the front of `s` gives: the characters
/// left over, or the error of the first character that is missing or differs.
pub open spec fn match_literal(t: Seq<char>, s: Seq<char>) -> Result<Seq<char>, ParseErr>
    decreases t.len(),
{
    if t.len() == 0 {
        Ok(s)
    } else if s.len() == 0 {
        Err(ParseErr::EOF())
    } else if s[0] != t[0] {
        Err(ParseErr::Expected(t[0]))
    } else {
        match_literal(t.drop_first(), s.drop_first())
    }
}

/// Reading the literal `t` from `s` succeeds exactly where `t` is a prefix of
/// `s`, and leaves what follows it.
pub proof fn lemma_literal_prefix(t: Seq<char>, s: Seq<char>)
    ensures
        (match_literal(t, s) is Ok) == t.is_prefix_of(s),
        t.is_prefix_of(s) ==> match_literal(t, s) == Ok::<Seq<char>, ParseErr>(s.skip(t.len() as int)),
    decreases t.len(),
{
    if t.len() == 0 {
        assert(s.skip(0) =~= s);
    } else if s.len() == 0 {
    } else if s[0] != t[0] {
        assert(!t.is_prefix_of(s)) by {
            if t.is_prefix_of(s) {
                assert(t[0] == s[0]);
            }
        }
    } else {
        lemma_literal_prefix(t.drop_first(), s.drop_first());
        assert(t.is_prefix_of(s) == t.drop_first().is_prefix_of(s.drop_first())) by {
            if t.drop_first().is_prefix_of(s.drop_first()) {
                assert forall|k: int| 0 <= k < t.len() implies t[k] == s[k] by {
                    if k > 0 {
                        assert(t.drop_first()[k - 1] == s.drop_first()[k - 1]);
                    }
                }
            }
            if t.is_prefix_of(s) {
                assert forall|k: int| 0 <= k < t.len() - 1 implies t.drop_first()[k] == s.drop_first()[k] by {
                    assert(t[k + 1] == s[k + 1]);
                }
            }
        }
        if t.is_prefix_of(s) {
            assert(s.drop_first().skip(t.drop_first().len() as int) =~= s.skip(t.len() as int));
        }
    }
}

/// Reading `t` and then `u` is reading `t + u`.
pub proof fn lemma_literal_concat(t: Seq<char>, u: Seq<char>, s: Seq<char>)
    ensures
        match_literal(t + u, s) == match match_literal(t, s) {
            Ok(m) => match_literal(u, m),
            Err(e) => Err(e),
        },
    decreases t.len(),
{
    if t.len() == 0 {
        assert(t + u =~= u);
    } else {
        assert((t + u).drop_first() =~= t.drop_first() + u);
        assert((t + u)[0] == t[0]);
        if s.len() > 0 && s[0] == t[0] {
            lemma_literal_concat(t.drop_first(), u, s.drop_first());
        }
    }
}

/// `q` reads exactly the literal `t`: it can run on any input, succeeds where
/// `t` is at the front, leaving what follows it, and fails with the error of
/// the first character of `t` that is missing or differs.
pub open spec fn reads_literal<I: Input<Item = char>, Q: Parser<I>>(q: Q, t: Seq<char>) -> bool {
    &&& forall|s: Seq<char>| #[trigger] q.parse_pre(s)
    &&& forall|s: Seq<char>, m: Seq<char>, o: Q::Output|
        #[trigger] q.accepts(s, m, o) ==> match_literal(t, s) == Ok::<Seq<char>, ParseErr>(m)
    &&& forall|s: Seq<char>, e: ParseErr|
        #[trigger] q.rejects(s, e) ==> match_literal(t, s) == Err::<Seq<char>, ParseErr>(e)
}

/// `char(c)` reads the one-character literal `c`.
pub proof fn lemma_char_reads_literal<I: Input<Item = char>>(p: CharParser<I>)
    ensures
        reads_literal(p, seq![p.c]),
{
    let t = seq![p.c];
    assert(t.drop_first() =~= Seq::<char>::empty());
    assert forall|s: Seq<char>, m: Seq<char>, o: char| #[trigger] p.accepts(s, m, o) implies match_literal(t, s) == Ok::<Seq<char>, ParseErr>(m) by {
        assert(match_literal(t.drop_first(), s.drop_first()) == Ok::<Seq<char>, ParseErr>(s.drop_first()));
    }
}

/// Running two literal readers one after the other reads the two literals
/// joined, whether the first value is kept or not.
pub proof fn lemma_sequence_reads_literal<I: Input<Item = char>, P: Parser<I>, Q: Parser<I>>(
    p: P,
    q: Q,
    t: Seq<char>,
    u: Seq<char>,
)
    requires
        reads_literal(p, t),
        reads_literal(q, u),
    ensures
        reads_literal((Sequence { a: p, b: q }), t + u),
        reads_literal((And { f: p, g: q }), t + u),
{
    assert forall|s: Seq<char>| #[trigger] match_literal(t + u, s) == match match_literal(t, s) {
        Ok(m) => match_literal(u, m),
        Err(e) => Err(e),
    } by {
        lemma_literal_concat(t, u, s);
    }
    let sq = Sequence { a: p, b: q };
    let an = And { f: p, g: q };
    assert forall|s: Seq<char>, m: Seq<char>, o: Q::Output| #[trigger] sq.accepts(s, m, o) implies match_literal(t + u, s) == Ok::<Seq<char>, ParseErr>(m) by {
        let (m1, x) = choose|m1: Seq<char>, x: P::Output| #[trigger] p.accepts(s, m1, x) && #[trigger] q.accepts(m1, m, o);
        assert(match_literal(t + u, s) == match match_literal(t, s) {
            Ok(m) => match_literal(u, m),
            Err(e) => Err(e),
        });
    }
    assert forall|s: Seq<char>, m: Seq<char>, o: (P::Output, Q::Output)| #[trigger] an.accepts(s, m, o) implies match_literal(t + u, s) == Ok::<Seq<char>, ParseErr>(m) by {
        let m1 = choose|m1: Seq<char>| #[trigger] p.accepts(s, m1, o.0) && q.accepts(m1, m, o.1);
        assert(match_literal(t + u, s) == match match_literal(t, s) {
            Ok(m) => match_literal(u, m),
            Err(e) => Err(e),
        });
    }
    assert forall|s: Seq<char>, e: ParseErr| #[trigger] sq.rejects(s, e) implies match_literal(t + u, s) == Err::<Seq<char>, ParseErr>(e) by {
        assert(match_literal(t + u, s) == match match_literal(t, s) {
            Ok(m) => match_literal(u, m),
            Err(e) => Err(e),
        });
        if !p.rejects(s, e) {
            let (m1, x) = choose|m1: Seq<char>, x: P::Output| #[trigger] p.accepts(s, m1, x) && q.rejects(m1, e);
        }
    }
    assert forall|s: Seq<char>, e: ParseErr| #[trigger] an.rejects(s, e) implies match_literal(t + u, s) == Err::<Seq<char>, ParseErr>(e) by {
        assert(match_literal(t + u, s) == match match_literal(t, s) {
            Ok(m) => match_literal(u, m),
            Err(e) => Err(e),
        });
        if !p.rejects(s, e) {
            let (m1, x) = choose|m1: Seq<char>, x: P::Output| #[trigger] p.accepts(s, m1, x) && q.rejects(m1, e);
        }
    }
}

/// Reading with `brac`, `p` and `ket` in turn reads their literals joined.
pub proof fn lemma_bracket_reads_literal<I: Input<Item = char>, P: Parser<I>, B: Parser<I>, K: Parser<I>>(
    p: P,
    b: B,
    k: K,
    t: Seq<char>,
    tb: Seq<char>,
    tk: Seq<char>,
)
    requires
        reads_literal(p, t),
        reads_literal(b, tb),
        reads_literal(k, tk),
    ensures
        reads_literal((Bracket { parser: p, brac: b, ket: k }), tb + t + tk),
{
    let br = Bracket { parser: p, brac: b, ket: k };
    assert forall|s: Seq<char>| #[trigger] match_literal(tb + t + tk, s) == match match_literal(tb, s) {
        Ok(m1) => match match_literal(t, m1) {
            Ok(m2) => match_literal(tk, m2),
            Err(e) => Err(e),
        },
        Err(e) => Err(e),
    } by {
        lemma_literal_concat(tb + t, tk, s);
        lemma_literal_concat(tb, t, s);
    }
    assert forall|s: Seq<char>, m: Seq<char>, o: P::Output| #[trigger] br.accepts(s, m, o) implies match_literal(tb + t + tk, s) == Ok::<Seq<char>, ParseErr>(m) by {
        let (m1, m2, x, y) = choose|m1: Seq<char>, m2: Seq<char>, x: B::Output, y: K::Output| #[trigger] b.accepts(s, m1, x) && #[trigger] p.accepts(m1, m2, o) && #[trigger] k.accepts(m2, m, y);
        assert(match_literal(tb, s) == Ok::<Seq<char>, ParseErr>(m1));
        assert(match_literal(t, m1) == Ok::<Seq<char>, ParseErr>(m2));
    }
    assert forall|s: Seq<char>, e: ParseErr| #[trigger] br.rejects(s, e) implies match_literal(tb + t + tk, s) == Err::<Seq<char>, ParseErr>(e) by {
        if !b.rejects(s, e) {
            let (m1, x) = choose|m1: Seq<char>, x: B::Output| #[trigger] b.accepts(s, m1, x) && {
                ||| p.rejects(m1, e)
                ||| exists|m2: Seq<char>, o: P::Output| #[trigger] p.accepts(m1, m2, o) && k.rejects(m2, e)
            };
            assert(match_literal(tb, s) == Ok::<Seq<char>, ParseErr>(m1));
            if !p.rejects(m1, e) {
                let (m2, o) = choose|m2: Seq<char>, o: P::Output| #[trigger] p.accepts(m1, m2, o) && k.rejects(m2, e);
                assert(match_literal(t, m1) == Ok::<Seq<char>, ParseErr>(m2));
            }
        }
    }
}

/// Reading with `surround`, `p` and `surround` again reads their literals
/// joined.
pub proof fn lemma_surround_reads_literal<I: Input<Item = char>, P: Parser<I>, S: Parser<I>>(
    p: P,
    q: S,
    t: Seq<char>,
    u: Seq<char>,
)
    requires
        reads_literal(p, t),
        reads_literal(q, u),
    ensures
        reads_literal((Surrounded { parser: p, surround: q }), u + t + u),
{
    let su = Surrounded { parser: p, surround: q };
    assert forall|s: Seq<char>| #[trigger] match_literal(u + t + u, s) == match match_literal(u, s) {
        Ok(m1) => match match_literal(t, m1) {
            Ok(m2) => match_literal(u, m2),
            Err(e) => Err(e),
        },
        Err(e) => Err(e),
    } by {
        lemma_literal_concat(u + t, u, s);
        lemma_literal_concat(u, t, s);
    }
    assert forall|s: Seq<char>, m: Seq<char>, o: P::Output| #[trigger] su.accepts(s, m, o) implies match_literal(u + t + u, s) == Ok::<Seq<char>, ParseErr>(m) by {
        let (m1, m2, x, y) = choose|m1: Seq<char>, m2: Seq<char>, x: S::Output, y: S::Output| #[trigger] q.accepts(s, m1, x) && #[trigger] p.accepts(m1, m2, o) && #[trigger] q.accepts(m2, m, y);
        assert(match_literal(u, s) == Ok::<Seq<char>, ParseErr>(m1));
        assert(match_literal(t, m1) == Ok::<Seq<char>, ParseErr>(m2));
    }
    assert forall|s: Seq<char>, e: ParseErr| #[trigger] su.rejects(s, e) implies match_literal(u + t + u, s) == Err::<Seq<char>, ParseErr>(e) by {
        if !q.rejects(s, e) {
            let (m1, x) = choose|m1: Seq<char>, x: S::Output| #[trigger] q.accepts(s, m1, x) && {
                ||| p.rejects(m1, e)
                ||| exists|m2: Seq<char>, o: P::Output| #[trigger] p.accepts(m1, m2, o) && q.rejects(m2, e)
            };
            assert(match_literal(u, s) == Ok::<Seq<char>, ParseErr>(m1));
            if !p.rejects(m1, e) {
                let (m2, o) = choose|m2: Seq<char>, o: P::Output| #[trigger] p.accepts(m1, m2, o) && q.rejects(m2, e);
                assert(match_literal(t, m1) == Ok::<Seq<char>, ParseErr>(m2));
            }
        }
    }
}

/// Forgetting the value keeps reading the same literal.
pub proof fn lemma_void_reads_literal<I: Input<Item = char>, P: Parser<I>>(p: Void<P>, t: Seq<char>)
    requires
        reads_literal(p.parser, t),
    ensures
        reads_literal(p, t),
{
    assert forall|s: Seq<char>, m: Seq<char>, o: ()| #[trigger] p.accepts(s, m, o) implies match_literal(t, s) == Ok::<Seq<char>, ParseErr>(m) by {
        let a = choose|a: P::Output| #[trigger] p.parser.accepts(s, m, a);
    }
}

/// Mapping a function that can run on every value keeps reading the same
/// literal, and gives a value the function may return.
pub proof fn lemma_mapped_reads_literal<I: Input<Item = char>, O, P: Parser<I>, F: Fn(P::Output) -> O>(
    p: Mapped<P, F>,
    t: Seq<char>,
)
    requires
        reads_literal(p.parser, t),
        forall|a: P::Output| call_requires(p.func, (a,)),
    ensures
        reads_literal(p, t),
        forall|s: Seq<char>, m: Seq<char>, o: O|
            #[trigger] p.accepts(s, m, o) ==> exists|a: P::Output| #[trigger] call_ensures(p.func, (a,), o),
{
    assert forall|s: Seq<char>, m: Seq<char>, o: O| #[trigger] p.accepts(s, m, o) implies match_literal(t, s) == Ok::<Seq<char>, ParseErr>(m) by {
        let a = choose|a: P::Output| #[trigger] p.parser.accepts(s, m, a) && call_ensures(p.func, (a,), o);
    }
}

/// Applying a function read by one literal reader to the value read by
/// another reads the two literals joined, where every function that the
/// first may give can run on every value.
pub proof fn lemma_ap_reads_literal<I: Input<Item = char>, O, A, F: Fn(A) -> O, PA: Parser<I, Output = A>, PF: Parser<I, Output = F>>(
    p: Ap<PF, PA>,
    t: Seq<char>,
    u: Seq<char>,
)
    requires
        reads_literal(p.pf, t),
        reads_literal(p.pa, u),
        forall|s: Seq<char>, m: Seq<char>, f: F, a: A| #[trigger] p.pf.accepts(s, m, f) ==> #[trigger] call_requires(f, (a,)),
    ensures
        reads_literal(p, t + u),
{
    assert forall|s: Seq<char>| #[trigger] match_literal(t + u, s) == match match_literal(t, s) {
        Ok(m) => match_literal(u, m),
        Err(e) => Err(e),
    } by {
        lemma_literal_concat(t, u, s);
    }
    assert forall|s: Seq<char>, m: Seq<char>, o: O| #[trigger] p.accepts(s, m, o) implies match_literal(t + u, s) == Ok::<Seq<char>, ParseErr>(m) by {
        let (mid, f, a) = choose|mid: Seq<char>, f: F, a: A| #[trigger] p.pf.accepts(s, mid, f) && #[trigger] p.pa.accepts(mid, m, a) && call_ensures(f, (a,), o);
        assert(match_literal(t + u, s) == match match_literal(t, s) {
            Ok(m) => match_literal(u, m),
            Err(e) => Err(e),
        });
    }
    assert forall|s: Seq<char>, e: ParseErr| #[trigger] p.rejects(s, e) implies match_literal(t + u, s) == Err::<Seq<char>, ParseErr>(e) by {
        assert(match_literal(t + u, s) == match match_literal(t, s) {
            Ok(m) => match_literal(u, m),
            Err(e) => Err(e),
        });
        if !p.pf.rejects(s, e) {
            let (mid, f) = choose|mid: Seq<char>, f: F| #[trigger] p.pf.accepts(s, mid, f) && p.pa.rejects(mid, e);
        }
    }
}

/// Combining the values of two literal readers with a function that can run
/// on every pair of values reads the two literals joined.
pub proof fn lemma_lift_a2_reads_literal<I: Input<Item = char>, A, B, O, F: Fn(A, B) -> O, PA: Parser<I, Output = A>, PB: Parser<I, Output = B>>(
    p: LiftA2<F, PA, PB>,
    t: Seq<char>,
    u: Seq<char>,
)
    requires
        reads_literal(p.pa, t),
        reads_literal(p.pb, u),
        forall|a: A, b: B| call_requires(p.f, (a, b)),
    ensures
        reads_literal(p, t + u),
{
    assert forall|s: Seq<char>| #[trigger] match_literal(t + u, s) == match match_literal(t, s) {
        Ok(m) => match_literal(u, m),
        Err(e) => Err(e),
    } by {
        lemma_literal_concat(t, u, s);
    }
    assert forall|s: Seq<char>, m: Seq<char>, o: O| #[trigger] p.accepts(s, m, o) implies match_literal(t + u, s) == Ok::<Seq<char>, ParseErr>(m) by {
        let (mid, a, b) = choose|mid: Seq<char>, a: A, b: B| #[trigger] p.pa.accepts(s, mid, a) && #[trigger] p.pb.accepts(mid, m, b) && call_ensures(p.f, (a, b), o);
        assert(match_literal(t + u, s) == match match_literal(t, s) {
            Ok(m) => match_literal(u, m),
            Err(e) => Err(e),
        });
    }
    assert forall|s: Seq<char>, e: ParseErr| #[trigger] p.rejects(s, e) implies match_literal(t + u, s) == Err::<Seq<char>, ParseErr>(e) by {
        assert(match_literal(t + u, s) == match match_literal(t, s) {
            Ok(m) => match_literal(u, m),
            Err(e) => Err(e),
        });
        if !p.pa.rejects(s, e) {
            let (mid, a) = choose|mid: Seq<char>, a: A| #[trigger] p.pa.accepts(s, mid, a) && p.pb.rejects(mid, e);
        }
    }
}

/// `s` without the copies of `t` at its front.
pub open spec fn strip(t: Seq<char>, s: Seq<char>) -> Seq<char>
    decreases s.len(),
{
    if t.len() > 0 && t.is_prefix_of(s) {
        strip(t, s.skip(t.len() as int))
    } else {
        s
    }
}

/// A parser that succeeds only by reading `t`, run again and again until `t`
/// no longer comes next, leaves `s` without the copies of `t` at its front.
pub proof fn lemma_literal_chain<I: Input<Item = char>, Q: Parser<I>>(
    q: Q,
    t: Seq<char>,
    s: Seq<char>,
    xs: Seq<Q::Output>,
    r: Seq<char>,
)
    requires
        t.len() > 0,
        forall|s: Seq<char>, m: Seq<char>, o: Q::Output|
            #[trigger] q.accepts(s, m, o) ==> match_literal(t, s) == Ok::<Seq<char>, ParseErr>(m),
        chain(q, s, xs, r),
        !t.is_prefix_of(r),
    ensures
        r == strip(t, s),
    decreases xs.len(),
{
    if xs.len() > 0 {
        let m = choose|m: Seq<char>| #[trigger] q.accepts(s, m, xs[0]) && chain(q, m, xs.drop_first(), r);
        lemma_literal_prefix(t, s);
        lemma_literal_chain(q, t, m, xs.drop_first(), r);
    }
}

/// A literal reader for a literal that is not empty can be run again and
/// again from any input: each run that succeeds reads the literal.
pub proof fn lemma_literal_iter_pre<I: Input<Item = char>, Q: Parser<I>>(q: Q, t: Seq<char>, s: Seq<char>)
    requires
        t.len() > 0,
        reads_literal(q, t),
    ensures
        iter_pre(q, s),
    decreases s.len(),
{
    assert(q.parse_pre(s));
    assert forall|m: Seq<char>, x: Q::Output| #[trigger] q.accepts(s, m, x) implies m.len() < s.len() && iter_pre(q, m) by {
        lemma_literal_prefix(t, s);
        lemma_literal_iter_pre(q, t, m);
    }
}

/// Reads the characters of `target` in order and gives `target`.
pub struct StringParser<I> {
    pub target: String,
    pub phantom: PhantomData<I>,
}

impl<I: Input<Item = char>> Parser<I> for StringParser<I> {
    type Output = String;

    open spec fn parse_pre(&self, s: Seq<char>) -> bool {
        true
    }

    open spec fn accepts(&self, s: Seq<char>, rest: Seq<char>, o: String) -> bool {
        match_literal(self.target@, s) == Ok::<Seq<char>, ParseErr>(rest) && o == self.target
    }

    open spec fn rejects(&self, s: Seq<char>, e: ParseErr) -> bool {
        match_literal(self.target@, s) == Err::<Seq<char>, ParseErr>(e)
    }

    fn parse(&self, input: I) -> (r: ParseResult<I, String>) {
        let ghost t = self.target@;
        let ghost s = input.items();
        let mut i = input;
        let n = self.target.as_str().unicode_len();
        let mut k: usize = 0;
        assert(t.skip(0) =~= t);
        while k < n
            invariant
                k <= n,
                n == t.len(),
                t == self.target@,
                s == input.items(),
                match_literal(t, s) == match_literal(t.skip(k as int), i.items()),
            decreases n - k,
        {
            let c = self.target.as_str().get_char(k);
            let ghost cur = i.items();
            proof {
                assert(t.skip(k as int)[0] == c);
                assert(t.skip(k as int).drop_first() =~= t.skip(k + 1));
            }
            match char(c).parse(i) {
                Ok((ii, _)) => {
                    i = ii;
                },
                Err(e) => {
                    assert(match_literal(t.skip(k as int), cur) == Err::<Seq<char>, ParseErr>(e));
                    return Err(e);
                },
            }
            k = k + 1;
        }
        assert(t.skip(n as int).len() == 0);
        Ok((i, self.target.clone()))
    }
}

pub fn string<I: Input<Item = char>>(target: String) -> (p: StringParser<I>)
    ensures
        p.target == target,
{
    StringParser { target, phantom: PhantomData }
}

/// Succeeds, reading nothing, only at the end of the input.
pub struct EOF;

impl<I: Input> Parser<I> for EOF where I::Item: DebugText {
    type Output = ();

    open spec fn parse_pre(&self, s: Seq<I::Item>) -> bool {
        true
    }

    open spec fn accepts(&self, s: Seq<I::Item>, rest: Seq<I::Item>, o: ()) -> bool {
        s.len() == 0 && rest == s
    }

    open spec fn rejects(&self, s: Seq<I::Item>, e: ParseErr) -> bool {
        s.len() > 0 && unexpected_text(e, "Expected EOF, got "@ + s[0].debug_view())
    }

    fn parse(&self, input: I) -> (r: ParseResult<I, ()>) {
        match input.uncons() {
            None => Ok((input, ())),
            Some((c, _)) => Err(ParseErr::Unexpected(message_with("Expected EOF, got ", &c))),
        }
    }
}

pub fn eof<I: Input>() -> (p: EOF) where I::Item: DebugText {
    EOF
}

} // verus!
