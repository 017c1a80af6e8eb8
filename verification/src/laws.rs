//! Properties that hold across the parsers of this library.
use vstd::prelude::*;
use crate::chars::{lemma_literal_prefix, CharParser, StringParser, EOF};
use crate::combinators::{
    And, AndThen, Bracket, DebugText, Mapped, NotFollowedBy, Optional, Or, Pure, Satisfy, Sequence,
    SkipOptional, Surrounded, Void,
};
use crate::parser::{AnyChar, Input, ParseErr, Parser};
use crate::refine::{id_view, lemma_and_refines, lemma_sep_end_accepts_fn, refines, sep_end_fn};
use crate::repeat::{
    chain, firsts, till_chain, Count, EndBy, EndBy1, Many, Many1, ManyTill, SepBy, SepBy1, SepEndBy,
    SepEndBy1, SkipMany, SkipSome,
};

verus! {

/// `r` is what is left of `s` after some of its front has been taken.
pub open spec fn is_suffix<T>(r: Seq<T>, s: Seq<T>) -> bool {
    r.len() <= s.len() && r == s.skip(s.len() - r.len())
}

/// Wherever `p` succeeds, what it leaves is what is left of its input after
/// some of its front: it only ever reads from the front.
pub open spec fn reads_front<I: Input, P: Parser<I>>(p: P) -> bool {
    forall|s: Seq<I::Item>, r: Seq<I::Item>, o: P::Output| #[trigger] p.accepts(s, r, o) ==> is_suffix(r, s)
}

pub proof fn lemma_suffix_trans<T>(a: Seq<T>, b: Seq<T>, c: Seq<T>)
    requires
        is_suffix(a, b),
        is_suffix(b, c),
    ensures
        is_suffix(a, c),
{
    assert(c.skip(c.len() - b.len()).skip(b.len() - a.len()) =~= c.skip(c.len() - a.len()));
}

pub proof fn lemma_suffix_refl<T>(s: Seq<T>)
    ensures
        is_suffix(s, s),
{
    assert(s.skip(0) =~= s);
}

pub proof fn lemma_suffix_drop_first<T>(s: Seq<T>)
    requires
        s.len() > 0,
    ensures
        is_suffix(s.drop_first(), s),
{
    assert(s.skip(1) =~= s.drop_first());
}

// ------------------------------------------------------- reading from the front

/// The single-character parsers read from the front.
pub proof fn lemma_chars_read_front<I: Input<Item = char>>(a: AnyChar<I>, c: CharParser<I>)
    ensures
        reads_front(a),
        reads_front(c),
{
    assert forall|s: Seq<char>, r: Seq<char>, o: char| #[trigger] a.accepts(s, r, o) implies is_suffix(r, s) by {
        lemma_suffix_drop_first(s);
    }
    assert forall|s: Seq<char>, r: Seq<char>, o: char| #[trigger] c.accepts(s, r, o) implies is_suffix(r, s) by {
        lemma_suffix_drop_first(s);
    }
}

/// `string` reads from the front, and `eof` reads nothing.
pub proof fn lemma_string_eof_read_front<I: Input<Item = char>>(p: StringParser<I>, e: EOF)
    where I::Item: DebugText
    ensures
        reads_front(p),
        reads_front::<I, EOF>(e),
{
    assert forall|s: Seq<char>, r: Seq<char>, o: String| #[trigger] p.accepts(s, r, o) implies is_suffix(r, s) by {
        lemma_literal_prefix(p.target@, s);
        assert(s.skip(s.len() - r.len()) =~= r);
    }
    assert forall|s: Seq<I::Item>, r: Seq<I::Item>, o: ()| #[trigger] <EOF as Parser<I>>::accepts(&e, s, r, o) implies is_suffix(r, s) by {
        lemma_suffix_refl(s);
    }
}

/// Running a parser that reads from the front again and again reads from the
/// front.
pub proof fn lemma_chain_suffix<I: Input, P: Parser<I>>(
    p: P,
    s: Seq<I::Item>,
    xs: Seq<P::Output>,
    r: Seq<I::Item>,
)
    requires
        reads_front(p),
        chain(p, s, xs, r),
    ensures
        is_suffix(r, s),
    decreases xs.len(),
{
    if xs.len() == 0 {
        lemma_suffix_refl(s);
    } else {
        let m = choose|m: Seq<I::Item>| #[trigger] p.accepts(s, m, xs[0]) && chain(p, m, xs.drop_first(), r);
        lemma_chain_suffix(p, m, xs.drop_first(), r);
        lemma_suffix_trans(r, m, s);
    }
}

proof fn lemma_till_chain_suffix<I: Input, P: Parser<I>, Q: Parser<I>>(
    p: P,
    q: Q,
    s: Seq<I::Item>,
    xs: Seq<P::Output>,
    r: Seq<I::Item>,
)
    requires
        reads_front(p),
        till_chain(p, q, s, xs, r),
    ensures
        is_suffix(r, s),
    decreases xs.len(),
{
    if xs.len() == 0 {
        lemma_suffix_refl(s);
    } else {
        let m = choose|m: Seq<I::Item>| #[trigger] p.accepts(s, m, xs[0]) && till_chain(p, q, m, xs.drop_first(), r);
        lemma_till_chain_suffix(p, q, m, xs.drop_first(), r);
        lemma_suffix_trans(r, m, s);
    }
}

/// Combinators that run their parts one after the other read from the front
/// when their parts do.
pub proof fn lemma_sequencing_reads_front<I: Input, P: Parser<I>, Q: Parser<I>, R: Parser<I>>(
    p: P,
    q: Q,
    r: R,
)
    requires
        reads_front(p),
        reads_front(q),
        reads_front(r),
    ensures
        reads_front((Sequence { a: p, b: q })),
        reads_front((And { f: p, g: q })),
        reads_front((Surrounded { parser: p, surround: q })),
        reads_front((Bracket { parser: p, brac: q, ket: r })),
        reads_front((Void { parser: p })),
        reads_front((Optional { parser: p })),
        reads_front((SkipOptional { parser: p })),
{
    assert forall|s: Seq<I::Item>, rest: Seq<I::Item>, o: Q::Output| #[trigger] (Sequence { a: p, b: q }).accepts(s, rest, o) implies is_suffix(rest, s) by {
        let (m, x) = choose|m: Seq<I::Item>, x: P::Output| #[trigger] p.accepts(s, m, x) && #[trigger] q.accepts(m, rest, o);
        lemma_suffix_trans(rest, m, s);
    }
    assert forall|s: Seq<I::Item>, rest: Seq<I::Item>, o: (P::Output, Q::Output)| #[trigger] (And { f: p, g: q }).accepts(s, rest, o) implies is_suffix(rest, s) by {
        let m = choose|m: Seq<I::Item>| #[trigger] p.accepts(s, m, o.0) && q.accepts(m, rest, o.1);
        lemma_suffix_trans(rest, m, s);
    }
    assert forall|s: Seq<I::Item>, rest: Seq<I::Item>, o: P::Output| #[trigger] (Surrounded { parser: p, surround: q }).accepts(s, rest, o) implies is_suffix(rest, s) by {
        let (m1, m2, x, y) = choose|m1: Seq<I::Item>, m2: Seq<I::Item>, x: Q::Output, y: Q::Output| #[trigger] q.accepts(s, m1, x) && #[trigger] p.accepts(m1, m2, o) && #[trigger] q.accepts(m2, rest, y);
        lemma_suffix_trans(m2, m1, s);
        lemma_suffix_trans(rest, m2, s);
    }
    assert forall|s: Seq<I::Item>, rest: Seq<I::Item>, o: P::Output| #[trigger] (Bracket { parser: p, brac: q, ket: r }).accepts(s, rest, o) implies is_suffix(rest, s) by {
        let (m1, m2, x, y) = choose|m1: Seq<I::Item>, m2: Seq<I::Item>, x: Q::Output, y: R::Output| #[trigger] q.accepts(s, m1, x) && #[trigger] p.accepts(m1, m2, o) && #[trigger] r.accepts(m2, rest, y);
        lemma_suffix_trans(m2, m1, s);
        lemma_suffix_trans(rest, m2, s);
    }
    assert forall|s: Seq<I::Item>, rest: Seq<I::Item>, o: Option<P::Output>| #[trigger] (Optional { parser: p }).accepts(s, rest, o) implies is_suffix(rest, s) by {
        if o is None {
            lemma_suffix_refl(s);
        }
    }
    assert forall|s: Seq<I::Item>, rest: Seq<I::Item>, o: ()| #[trigger] (SkipOptional { parser: p }).accepts(s, rest, o) implies is_suffix(rest, s) by {
        if rest == s {
            lemma_suffix_refl(s);
        }
    }
}

/// Choosing between two parsers, and mapping the value read, keep reading
/// from the front.
pub proof fn lemma_choice_reads_front<I: Input, O, P: Parser<I, Output = O>, Q: Parser<I, Output = O>, F: Fn(O) -> B, B>(
    p: P,
    q: Q,
    f: F,
)
    requires
        reads_front(p),
        reads_front(q),
    ensures
        reads_front((Or { f: p, g: q })),
        reads_front((Mapped { parser: p, func: f })),
{
    assert forall|s: Seq<I::Item>, rest: Seq<I::Item>, o: B| #[trigger] (Mapped { parser: p, func: f }).accepts(s, rest, o) implies is_suffix(rest, s) by {
        let a = choose|a: O| #[trigger] p.accepts(s, rest, a) && call_ensures(f, (a,), o);
    }
}

/// Testing the value read keeps reading from the front.
pub proof fn lemma_satisfy_reads_front<I: Input, P: Parser<I>, G: Fn(&P::Output) -> bool>(p: P, g: G)
    where P::Output: DebugText
    requires
        reads_front(p),
    ensures
        reads_front((Satisfy { parser: p, f: g })),
{
}

/// Looking ahead reads nothing: `not_followed_by` leaves what its first part
/// left, and `many_till` leaves the place where `end` succeeded.
pub proof fn lemma_lookahead_reads_front<I: Input, O, P: Parser<I, Output = O>, Q: Parser<I>>(p: P, q: Q)
    where Q::Output: DebugText
    requires
        reads_front(p),
    ensures
        reads_front((NotFollowedBy { parser: p, follow: q })),
        reads_front((ManyTill { parser: p, end: q })),
        forall|s: Seq<I::Item>, r: Seq<I::Item>, o: O|
            #[trigger] (NotFollowedBy { parser: p, follow: q }).accepts(s, r, o) ==> p.accepts(s, r, o),
{
    assert forall|s: Seq<I::Item>, rest: Seq<I::Item>, v: Vec<O>| #[trigger] (ManyTill { parser: p, end: q }).accepts(s, rest, v) implies is_suffix(rest, s) by {
        lemma_till_chain_suffix(p, q, s, v@, rest);
    }
}

/// The repeating combinators read from the front when their parts do.
pub proof fn lemma_repeat_reads_front<I: Input, O, P: Parser<I, Output = O>, S: Parser<I>>(p: P, sep: S, n: u32)
    requires
        reads_front(p),
        reads_front(sep),
    ensures
        reads_front((Many { parser: p })),
        reads_front((Many1 { parser: p })),
        reads_front((SkipMany { parser: p })),
        reads_front((SkipSome { parser: p })),
        reads_front((Count { parser: p, count: n })),
        reads_front((SepBy { parser: p, sep: sep })),
        reads_front((SepBy1 { parser: p, sep: sep })),
        reads_front((EndBy { parser: p, sep: sep })),
        reads_front((EndBy1 { parser: p, sep: sep })),
        reads_front((SepEndBy { parser: p, sep: sep })),
        reads_front((SepEndBy1 { parser: p, sep: sep })),
{
    let q = Sequence { a: sep, b: p };
    let pair = And { f: p, g: sep };
    lemma_sequencing_reads_front(sep, p, p);
    lemma_sequencing_reads_front(p, sep, p);
    assert forall|s: Seq<I::Item>, r: Seq<I::Item>, v: Vec<O>| #[trigger] (Many { parser: p }).accepts(s, r, v) implies is_suffix(r, s) by {
        lemma_chain_suffix(p, s, v@, r);
    }
    assert forall|s: Seq<I::Item>, r: Seq<I::Item>, v: Vec<O>| #[trigger] (Many1 { parser: p }).accepts(s, r, v) implies is_suffix(r, s) by {
        lemma_chain_suffix(p, s, v@, r);
    }
    assert forall|s: Seq<I::Item>, r: Seq<I::Item>, v: ()| #[trigger] (SkipMany { parser: p }).accepts(s, r, v) implies is_suffix(r, s) by {
        let xs = choose|xs: Seq<O>| #[trigger] chain(p, s, xs, r);
        lemma_chain_suffix(p, s, xs, r);
    }
    assert forall|s: Seq<I::Item>, r: Seq<I::Item>, v: ()| #[trigger] (SkipSome { parser: p }).accepts(s, r, v) implies is_suffix(r, s) by {
        let xs = choose|xs: Seq<O>| xs.len() > 0 && #[trigger] chain(p, s, xs, r);
        lemma_chain_suffix(p, s, xs, r);
    }
    assert forall|s: Seq<I::Item>, r: Seq<I::Item>, v: Vec<O>| #[trigger] (Count { parser: p, count: n }).accepts(s, r, v) implies is_suffix(r, s) by {
        lemma_chain_suffix(p, s, v@, r);
    }
    assert forall|s: Seq<I::Item>, r: Seq<I::Item>, v: Vec<O>| #[trigger] (SepBy { parser: p, sep: sep }).accepts(s, r, v) implies is_suffix(r, s) by {
        if v@.len() == 0 {
            lemma_suffix_refl(s);
        } else {
            let m = choose|m: Seq<I::Item>| #[trigger] p.accepts(s, m, v@[0]) && crate::repeat::sep_tail_accepts(p, sep, m, v@.drop_first(), r);
            lemma_chain_suffix(q, m, v@.drop_first(), r);
            lemma_suffix_trans(r, m, s);
        }
    }
    assert forall|s: Seq<I::Item>, r: Seq<I::Item>, v: Vec<O>| #[trigger] (SepBy1 { parser: p, sep: sep }).accepts(s, r, v) implies is_suffix(r, s) by {
        let m = choose|m: Seq<I::Item>| #[trigger] p.accepts(s, m, v@[0]) && crate::repeat::sep_tail_accepts(p, sep, m, v@.drop_first(), r);
        lemma_chain_suffix(q, m, v@.drop_first(), r);
        lemma_suffix_trans(r, m, s);
    }
    assert forall|s: Seq<I::Item>, r: Seq<I::Item>, v: Vec<O>| #[trigger] (EndBy { parser: p, sep: sep }).accepts(s, r, v) implies is_suffix(r, s) by {
        let ys = choose|ys: Seq<(O, S::Output)>| #[trigger] chain(pair, s, ys, r) && v@ == firsts(ys);
        lemma_chain_suffix(pair, s, ys, r);
    }
    assert forall|s: Seq<I::Item>, r: Seq<I::Item>, v: Vec<O>| #[trigger] (EndBy1 { parser: p, sep: sep }).accepts(s, r, v) implies is_suffix(r, s) by {
        let ys = choose|ys: Seq<(O, S::Output)>| #[trigger] chain(pair, s, ys, r) && v@ == firsts(ys);
        lemma_chain_suffix(pair, s, ys, r);
    }
    assert forall|s: Seq<I::Item>, r: Seq<I::Item>, v: Vec<O>| crate::repeat::sep_end_accepts(p, sep, s, v@, r) implies is_suffix(r, s) by {
        if crate::repeat::end_tail_accepts(p, sep, s, v@, r) {
            let ys = choose|ys: Seq<(O, S::Output)>| #[trigger] chain(pair, s, ys, r) && v@ == firsts(ys);
            lemma_chain_suffix(pair, s, ys, r);
        } else {
            let (ys, m2, o) = choose|ys: Seq<(O, S::Output)>, m2: Seq<I::Item>, o: O| #[trigger] chain(pair, s, ys, m2) && #[trigger] p.accepts(m2, r, o) && v@ == firsts(ys).push(o);
            lemma_chain_suffix(pair, s, ys, m2);
            lemma_suffix_trans(r, m2, s);
        }
    }
}

/// Following a parser with `and_then` into parsers made by `pure` changes
/// neither where it stops nor how it fails.
pub proof fn lemma_and_then_pure<I: Input, A, B, P: Parser<I, Output = A>, G: Fn() -> B, F: Fn(A) -> Pure<I, G>>(
    p: AndThen<P, F>,
    s: Seq<I::Item>,
)
    ensures
        forall|rest: Seq<I::Item>, o: B|
            #[trigger] p.accepts(s, rest, o) ==> exists|a: A| #[trigger] p.parser.accepts(s, rest, a),
        forall|e: ParseErr| #[trigger] p.rejects(s, e) <==> p.parser.rejects(s, e),
{
    assert forall|rest: Seq<I::Item>, o: B| #[trigger] p.accepts(s, rest, o) implies exists|a: A| #[trigger] p.parser.accepts(s, rest, a) by {
        let (m, a, q) = choose|m: Seq<I::Item>, a: A, q: Pure<I, G>| #[trigger] p.parser.accepts(s, m, a) && #[trigger] call_ensures(p.f, (a,), q) && q.accepts(m, rest, o);
        assert(p.parser.accepts(s, rest, a));
    }
}

// ------------------------------------------------------- choice and repetition

/// `optional`, `skip_optional`, `many`, `skip_many`, `sep_end_by` and `pure`
/// never fail, so running them always gives `Ok`.
pub proof fn lemma_never_fail<I: Input, P: Parser<I>, S: Parser<I>, A, F: Fn() -> A>(p: P, sep: S, f: F)
    ensures
        forall|s: Seq<I::Item>, e: ParseErr| !#[trigger] (Optional { parser: p }).rejects(s, e),
        forall|s: Seq<I::Item>, e: ParseErr| !#[trigger] (SkipOptional { parser: p }).rejects(s, e),
        forall|s: Seq<I::Item>, e: ParseErr| !#[trigger] (Many { parser: p }).rejects(s, e),
        forall|s: Seq<I::Item>, e: ParseErr| !#[trigger] (SkipMany { parser: p }).rejects(s, e),
        forall|s: Seq<I::Item>, e: ParseErr| !#[trigger] (SepEndBy { parser: p, sep: sep }).rejects(s, e),
        forall|s: Seq<I::Item>, e: ParseErr| !#[trigger] (Pure::<I, F> { f: f, phantom: std::marker::PhantomData }).rejects(s, e),
{
}

/// `or` gives what its first parser gives where that one succeeds, and
/// what its second parser gives on the same input where the first fails.
pub proof fn lemma_or_prefers_first<I: Input, O, P: Parser<I, Output = O>, Q: Parser<I, Output = O>>(
    p: Or<P, Q>,
    s: Seq<I::Item>,
)
    ensures
        forall|r: Seq<I::Item>, o: O| #[trigger] p.f.accepts(s, r, o) ==> p.accepts(s, r, o),
        (forall|e: ParseErr| !#[trigger] p.f.rejects(s, e)) ==> forall|r: Seq<I::Item>, o: O|
            #[trigger] p.accepts(s, r, o) <==> p.f.accepts(s, r, o),
        (forall|e: ParseErr| !#[trigger] p.f.rejects(s, e)) ==> forall|e: ParseErr| !#[trigger] p.rejects(s, e),
        (exists|e: ParseErr| #[trigger] p.f.rejects(s, e)) ==> forall|r: Seq<I::Item>, o: O|
            #[trigger] p.g.accepts(s, r, o) ==> p.accepts(s, r, o),
        (exists|e: ParseErr| #[trigger] p.f.rejects(s, e)) ==> forall|e: ParseErr|
            #[trigger] p.rejects(s, e) <==> p.g.rejects(s, e),
{
}

/// `some` is `many` where at least one value is read; `many` reads none
/// exactly where `p` fails at once, and then reads nothing; `some` fails as
/// `p` does.
pub proof fn lemma_many_and_some<I: Input, O, P: Parser<I, Output = O>>(p: P)
    ensures
        forall|s: Seq<I::Item>, r: Seq<I::Item>, v: Vec<O>|
            #[trigger] (Many1 { parser: p }).accepts(s, r, v) <==> (Many { parser: p }).accepts(s, r, v) && v@.len() > 0,
        forall|s: Seq<I::Item>, r: Seq<I::Item>, v: Vec<O>|
            #[trigger] (Many { parser: p }).accepts(s, r, v) && v@.len() == 0 <==> v@.len() == 0 && r == s && exists|e: ParseErr| #[trigger] p.rejects(s, e),
        forall|s: Seq<I::Item>, e: ParseErr| #[trigger] (Many1 { parser: p }).rejects(s, e) <==> p.rejects(s, e),
{
}

/// `skip_many` and `skip_some` stop where `many` and `some` stop, and forget
/// the values.
pub proof fn lemma_skip_forgets<I: Input, O, P: Parser<I, Output = O>>(p: P)
    ensures
        forall|s: Seq<I::Item>, r: Seq<I::Item>, v: Vec<O>|
            #[trigger] (Many { parser: p }).accepts(s, r, v) ==> (SkipMany { parser: p }).accepts(s, r, ()),
        forall|s: Seq<I::Item>, r: Seq<I::Item>, v: Vec<O>|
            #[trigger] (Many1 { parser: p }).accepts(s, r, v) ==> (SkipSome { parser: p }).accepts(s, r, ()),
        forall|s: Seq<I::Item>, r: Seq<I::Item>| #[trigger] (SkipMany { parser: p }).accepts(s, r, ()) ==> exists|xs: Seq<O>|
            #[trigger] chain(p, s, xs, r) && exists|e: ParseErr| #[trigger] p.rejects(r, e),
        forall|s: Seq<I::Item>, e: ParseErr| #[trigger] (SkipSome { parser: p }).rejects(s, e) <==> (Many1 { parser: p }).rejects(s, e),
{
    let many = Many { parser: p };
    let some = Many1 { parser: p };
    let skip_many = SkipMany { parser: p };
    let skip_some = SkipSome { parser: p };
    assert forall|s: Seq<I::Item>, r: Seq<I::Item>, v: Vec<O>| #[trigger] many.accepts(s, r, v) implies skip_many.accepts(s, r, ()) by {
        let xs = v@;
        assert(chain(skip_many.parser, s, xs, r));
    }
    assert forall|s: Seq<I::Item>, r: Seq<I::Item>, v: Vec<O>| #[trigger] some.accepts(s, r, v) implies skip_some.accepts(s, r, ()) by {
        let xs = v@;
        assert(xs.len() > 0 && chain(skip_some.parser, s, xs, r));
    }
}

/// `sep_by` is `sep_by_1` where at least one value is read; where `p` fails
/// at once it reads nothing and gives no values; wherever it fails, so does
/// `sep_by_1`, with the same error.
pub proof fn lemma_sep_by_and_sep_by_1<I: Input, O, P: Parser<I, Output = O>, S: Parser<I>>(
    p: SepBy<P, S>,
    q: SepBy1<P, S>,
)
    requires
        q.parser == p.parser,
        q.sep == p.sep,
    ensures
        forall|s: Seq<I::Item>, r: Seq<I::Item>, v: Vec<O>|
            #[trigger] p.accepts(s, r, v) && v@.len() > 0 <==> q.accepts(s, r, v),
        forall|s: Seq<I::Item>, r: Seq<I::Item>, v: Vec<O>|
            #[trigger] p.accepts(s, r, v) && v@.len() == 0 <==> v@.len() == 0 && r == s && exists|e: ParseErr| #[trigger] p.parser.rejects(s, e),
        forall|s: Seq<I::Item>, e: ParseErr| #[trigger] p.rejects(s, e) ==> q.rejects(s, e),
{
}

/// `end_by_1` and `sep_end_by_1` are `end_by` and `sep_end_by` where at
/// least one value is read; where `p` fails at once, the first two fail with
/// its error.
pub proof fn lemma_ended_repetition<I: Input, O, P: Parser<I, Output = O>, S: Parser<I>>(p: P, sep: S)
    ensures
        forall|s: Seq<I::Item>, r: Seq<I::Item>, v: Vec<O>|
            #[trigger] (EndBy1 { parser: p, sep: sep }).accepts(s, r, v) <==> (EndBy { parser: p, sep: sep }).accepts(s, r, v) && v@.len() > 0,
        forall|s: Seq<I::Item>, r: Seq<I::Item>, v: Vec<O>|
            #[trigger] (SepEndBy1 { parser: p, sep: sep }).accepts(s, r, v) <==> (SepEndBy { parser: p, sep: sep }).accepts(s, r, v) && v@.len() > 0,
        forall|s: Seq<I::Item>, e: ParseErr| #[trigger] p.rejects(s, e) ==> (EndBy1 { parser: p, sep: sep }).rejects(s, e)
            && (SepEndBy1 { parser: p, sep: sep }).rejects(s, e),
{
}

/// `count(n)` gives exactly `n` values, read one after the other.
pub proof fn lemma_count_gives_n<I: Input, O, P: Parser<I, Output = O>>(p: P, n: u32)
    ensures
        forall|s: Seq<I::Item>, r: Seq<I::Item>, v: Vec<O>|
            #[trigger] (Count { parser: p, count: n }).accepts(s, r, v) <==> v@.len() == n && chain(p, s, v@, r),
{
}

/// Where the parser and the separator behave as functions (the parser with
/// its own values as the view), on every input on which `sep_end_by` runs:
/// `sep_end_by_1` runs too; it fails exactly where the parser fails at once,
/// with the parser's errors; elsewhere it cannot fail, and it gives the one
/// result `sep_end_by` gives, which has at least one value.
pub proof fn lemma_sep_end_by_1_on_functions<I: Input, O, P: Parser<I, Output = O>, S: Parser<I>, X>(
    p0: SepEndBy<P, S>,
    p1: SepEndBy1<P, S>,
    f: spec_fn(Seq<I::Item>) -> Option<(Seq<I::Item>, O)>,
    g: spec_fn(Seq<I::Item>) -> Option<(Seq<I::Item>, X)>,
    vx: spec_fn(S::Output) -> X,
    s: Seq<I::Item>,
)
    requires
        p1.parser == p0.parser,
        p1.sep == p0.sep,
        refines(p0.parser, f, id_view()),
        refines(p0.sep, g, vx),
        p0.parse_pre(s),
    ensures
        p1.parse_pre(s),
        forall|e: ParseErr| #[trigger] p1.rejects(s, e) <==> p0.parser.rejects(s, e),
        f(s) is None ==> forall|r: Seq<I::Item>, v: Vec<O>| !#[trigger] p1.accepts(s, r, v),
        f(s) is Some ==> forall|e: ParseErr| !#[trigger] p1.rejects(s, e),
        f(s) is Some ==> forall|r: Seq<I::Item>, v: Vec<O>|
            #[trigger] p0.accepts(s, r, v) ==> v@.len() > 0 && p1.accepts(s, r, v),
        forall|r0: Seq<I::Item>, v0: Vec<O>, r1: Seq<I::Item>, v1: Vec<O>|
            #[trigger] p0.accepts(s, r0, v0) && #[trigger] p0.accepts(s, r1, v1) ==> r0 == r1 && v0@ == v1@,
        forall|r0: Seq<I::Item>, v0: Vec<O>, r1: Seq<I::Item>, v1: Vec<O>|
            #[trigger] p0.accepts(s, r0, v0) && #[trigger] p1.accepts(s, r1, v1) ==> r0 == r1 && v0@ == v1@,
{
    let q = And { f: p0.parser, g: p0.sep };
    assert(p1.parse_pre(s));
    assert forall|r: Seq<I::Item>, v: Vec<O>| #[trigger] p0.accepts(s, r, v) implies
        sep_end_fn(f, g, s) == (r, v@) && (f(s) is Some ==> v@.len() > 0) by {
        lemma_sep_end_accepts_fn(p0.parser, p0.sep, f, id_view(), g, vx, s, v@, r);
        assert(v@.map_values(id_view::<O>()) =~= v@);
        if f(s) is Some && v@.len() == 0 {
            lemma_and_refines(q, f, id_view(), g, vx);
            assert(sep_end_fn(f, g, s).1.len() > 0);
        }
    }
    assert forall|r: Seq<I::Item>, v: Vec<O>| #[trigger] p1.accepts(s, r, v) implies p0.accepts(s, r, v) && f(s) is Some by {
        lemma_sep_end_accepts_fn(p0.parser, p0.sep, f, id_view(), g, vx, s, v@, r);
    }
    assert forall|e: ParseErr| #[trigger] p1.rejects(s, e) implies f(s) is None by {
        assert(p0.parser.rejects(s, e));
    }
}

} // verus!
