//! Parsers that behave as functions.
//!
//! `refines(p, f, view)` says that everything `p` may do agrees with the spec
//! function `f`: where `p` may succeed, `f` gives the same items left over
//! and the view of the same value, and where `p` may fail, `f` gives `None`.
//! The lemmas here carry this from parsers to the combinators built on them.
use vstd::prelude::*;
use crate::chars::{CharParser, match_literal, StringParser, EOF};
use crate::combinators::{And, AndThen, Ap, DebugText, NotFollowedBy, Pure, SkipOptional, Unexpected, Bracket, Lift, LiftA2, Mapped, Optional, Or, Satisfy, Sequence, Surrounded, Void};
use crate::parser::{AnyChar, Input, ParseErr, Parser};
use crate::repeat::{chain, count_pre, firsts, iter_pre, lemma_shrinking_till_pre, till_chain, Count, EndBy, EndBy1, Many, Many1, ManyTill, SepBy, SepBy1, SepEndBy, SepEndBy1, SkipMany, SkipSome};

verus! {

pub open spec fn refines<I: Input, P: Parser<I>, V>(
    p: P,
    f: spec_fn(Seq<I::Item>) -> Option<(Seq<I::Item>, V)>,
    view: spec_fn(P::Output) -> V,
) -> bool {
    &&& forall|s: Seq<I::Item>, r: Seq<I::Item>, o: P::Output|
        #[trigger] p.accepts(s, r, o) ==> f(s) == Some((r, view(o)))
    &&& forall|s: Seq<I::Item>, e: ParseErr| #[trigger] p.rejects(s, e) ==> f(s) is None
}

/// `p` can run on every input.
pub open spec fn total<I: Input, P: Parser<I>>(p: P) -> bool {
    forall|s: Seq<I::Item>| #[trigger] p.parse_pre(s)
}

/// `f` reads at least one item wherever it succeeds.
pub open spec fn progresses<T, V>(f: spec_fn(Seq<T>) -> Option<(Seq<T>, V)>) -> bool {
    forall|s: Seq<T>| #[trigger] f(s) matches Some((r, _)) ==> r.len() < s.len()
}

pub open spec fn id_view<A>() -> spec_fn(A) -> A {
    |a: A| a
}

pub open spec fn unit_view<A>() -> spec_fn(A) -> () {
    |a: A| ()
}

/// Reading any one character.
pub open spec fn any_char_fn() -> spec_fn(Seq<char>) -> Option<(Seq<char>, char)> {
    |s: Seq<char>| if s.len() > 0 { Some((s.drop_first(), s[0])) } else { None }
}

/// Reading the character `c`.
pub open spec fn char_fn(c: char) -> spec_fn(Seq<char>) -> Option<(Seq<char>, char)> {
    |s: Seq<char>| if s.len() > 0 && s[0] == c { Some((s.drop_first(), c)) } else { None }
}

/// Reading the characters `t`.
pub open spec fn literal_fn(t: Seq<char>) -> spec_fn(Seq<char>) -> Option<(Seq<char>, Seq<char>)> {
    |s: Seq<char>| match match_literal(t, s) {
        Ok(r) => Some((r, t)),
        Err(_) => None,
    }
}

pub proof fn lemma_any_char_refines<I: Input<Item = char>>(p: AnyChar<I>)
    ensures
        refines(p, any_char_fn(), id_view()),
        total(p),
{
}

pub proof fn lemma_char_refines<I: Input<Item = char>>(p: CharParser<I>)
    ensures
        refines(p, char_fn(p.c), id_view()),
        total(p),
{
}

pub open spec fn string_view() -> spec_fn(String) -> Seq<char> {
    |o: String| o@
}

pub open spec fn const_fn<A, B>(b: B) -> spec_fn(A) -> B {
    |a: A| b
}

pub proof fn lemma_string_refines<I: Input<Item = char>>(p: StringParser<I>)
    ensures
        refines(p, literal_fn(p.target@), string_view()),
        total(p),
{
}

/// Composition: run `f`, then run `g` on what is left.
pub open spec fn then_fn<T, A, B>(
    f: spec_fn(Seq<T>) -> Option<(Seq<T>, A)>,
    g: spec_fn(Seq<T>) -> Option<(Seq<T>, B)>,
) -> spec_fn(Seq<T>) -> Option<(Seq<T>, B)> {
    |s: Seq<T>| match f(s) {
        Some((m, _)) => g(m),
        None => None,
    }
}

/// Run `f` and apply `h` to its value.
pub open spec fn map_fn<T, A, B>(
    f: spec_fn(Seq<T>) -> Option<(Seq<T>, A)>,
    h: spec_fn(A) -> B,
) -> spec_fn(Seq<T>) -> Option<(Seq<T>, B)> {
    |s: Seq<T>| match f(s) {
        Some((r, a)) => Some((r, h(a))),
        None => None,
    }
}

/// Run `f`, and where it fails, `g`.
pub open spec fn or_fn<T, A>(
    f: spec_fn(Seq<T>) -> Option<(Seq<T>, A)>,
    g: spec_fn(Seq<T>) -> Option<(Seq<T>, A)>,
) -> spec_fn(Seq<T>) -> Option<(Seq<T>, A)> {
    |s: Seq<T>| if f(s) is Some { f(s) } else { g(s) }
}

pub proof fn lemma_seq_refines<I: Input, P: Parser<I>, Q: Parser<I>, A, B>(
    p: Sequence<P, Q>,
    f: spec_fn(Seq<I::Item>) -> Option<(Seq<I::Item>, A)>,
    va: spec_fn(P::Output) -> A,
    g: spec_fn(Seq<I::Item>) -> Option<(Seq<I::Item>, B)>,
    vb: spec_fn(Q::Output) -> B,
)
    requires
        refines(p.a, f, va),
        refines(p.b, g, vb),
    ensures
        refines(p, then_fn(f, g), vb),
        total(p.a) && total(p.b) ==> total(p),
{
}

pub proof fn lemma_or_refines<I: Input, O, P: Parser<I, Output = O>, Q: Parser<I, Output = O>, A>(
    p: Or<P, Q>,
    f: spec_fn(Seq<I::Item>) -> Option<(Seq<I::Item>, A)>,
    g: spec_fn(Seq<I::Item>) -> Option<(Seq<I::Item>, A)>,
    view: spec_fn(O) -> A,
)
    requires
        refines(p.f, f, view),
        refines(p.g, g, view),
    ensures
        refines(p, or_fn(f, g), view),
        total(p.f) && total(p.g) ==> total(p),
{
}

pub proof fn lemma_map_refines<I: Input, A, O, P: Parser<I, Output = A>, F: Fn(A) -> O, VA, VB>(
    p: Mapped<P, F>,
    f: spec_fn(Seq<I::Item>) -> Option<(Seq<I::Item>, VA)>,
    va: spec_fn(A) -> VA,
    h: spec_fn(VA) -> VB,
    vb: spec_fn(O) -> VB,
)
    requires
        refines(p.parser, f, va),
        forall|a: A, o: O| #[trigger] call_ensures(p.func, (a,), o) ==> vb(o) == h(va(a)),
    ensures
        refines(p, map_fn(f, h), vb),
        total(p.parser) && (forall|a: A| call_requires(p.func, (a,))) ==> total(p),
{
}

pub proof fn lemma_void_refines<I: Input, P: Parser<I>, A>(
    p: Void<P>,
    f: spec_fn(Seq<I::Item>) -> Option<(Seq<I::Item>, A)>,
    va: spec_fn(P::Output) -> A,
)
    requires
        refines(p.parser, f, va),
    ensures
        refines(p, map_fn(f, |a: A| ()), unit_view()),
        total(p.parser) ==> total(p),
{
}

/// Run `a`, then `p`, then `b`, keeping what `p` gives.
pub open spec fn between_fn<T, X, A, Y>(
    a: spec_fn(Seq<T>) -> Option<(Seq<T>, X)>,
    f: spec_fn(Seq<T>) -> Option<(Seq<T>, A)>,
    b: spec_fn(Seq<T>) -> Option<(Seq<T>, Y)>,
) -> spec_fn(Seq<T>) -> Option<(Seq<T>, A)> {
    |s: Seq<T>| match a(s) {
        Some((m1, _)) => match f(m1) {
            Some((m2, v)) => match b(m2) {
                Some((r, _)) => Some((r, v)),
                None => None,
            },
            None => None,
        },
        None => None,
    }
}

pub proof fn lemma_surround_refines<I: Input, P: Parser<I>, S: Parser<I>, A, X>(
    p: Surrounded<P, S>,
    f: spec_fn(Seq<I::Item>) -> Option<(Seq<I::Item>, A)>,
    va: spec_fn(P::Output) -> A,
    g: spec_fn(Seq<I::Item>) -> Option<(Seq<I::Item>, X)>,
    vx: spec_fn(S::Output) -> X,
)
    requires
        refines(p.parser, f, va),
        refines(p.surround, g, vx),
    ensures
        refines(p, between_fn(g, f, g), va),
        total(p.parser) && total(p.surround) ==> total(p),
{
}

pub proof fn lemma_bracket_refines<I: Input, P: Parser<I>, B: Parser<I>, K: Parser<I>, A, X, Y>(
    p: Bracket<P, B, K>,
    f: spec_fn(Seq<I::Item>) -> Option<(Seq<I::Item>, A)>,
    va: spec_fn(P::Output) -> A,
    g: spec_fn(Seq<I::Item>) -> Option<(Seq<I::Item>, X)>,
    vx: spec_fn(B::Output) -> X,
    h: spec_fn(Seq<I::Item>) -> Option<(Seq<I::Item>, Y)>,
    vy: spec_fn(K::Output) -> Y,
)
    requires
        refines(p.parser, f, va),
        refines(p.brac, g, vx),
        refines(p.ket, h, vy),
    ensures
        refines(p, between_fn(g, f, h), va),
        total(p.parser) && total(p.brac) && total(p.ket) ==> total(p),
{
}

/// Run `f` and keep its result only where `pred` holds of the value.
pub open spec fn filter_fn<T, A>(
    f: spec_fn(Seq<T>) -> Option<(Seq<T>, A)>,
    pred: spec_fn(A) -> bool,
) -> spec_fn(Seq<T>) -> Option<(Seq<T>, A)> {
    |s: Seq<T>| match f(s) {
        Some((r, a)) => if pred(a) { Some((r, a)) } else { None },
        None => None,
    }
}

pub proof fn lemma_satisfy_refines<I: Input, P: Parser<I>, F: Fn(&P::Output) -> bool, A>(
    p: Satisfy<P, F>,
    f: spec_fn(Seq<I::Item>) -> Option<(Seq<I::Item>, A)>,
    va: spec_fn(P::Output) -> A,
    pred: spec_fn(A) -> bool,
)
    where P::Output: DebugText
    requires
        refines(p.parser, f, va),
        forall|o: P::Output, b: bool| #[trigger] call_ensures(p.f, (&o,), b) ==> b == pred(va(o)),
    ensures
        refines(p, filter_fn(f, pred), va),
        total(p.parser) && (forall|o: P::Output| call_requires(p.f, (&o,))) ==> total(p),
{
}

/// Run `f`; where it fails, succeed reading nothing.
pub open spec fn opt_fn<T, A>(f: spec_fn(Seq<T>) -> Option<(Seq<T>, A)>) -> spec_fn(Seq<T>) -> Option<
    (Seq<T>, Option<A>),
> {
    |s: Seq<T>| match f(s) {
        Some((r, a)) => Some((r, Some(a))),
        None => Some((s, None)),
    }
}

pub open spec fn opt_view<O, A>(va: spec_fn(O) -> A) -> spec_fn(Option<O>) -> Option<A> {
    |o: Option<O>| match o {
        Some(x) => Some(va(x)),
        None => None,
    }
}

pub proof fn lemma_optional_refines<I: Input, P: Parser<I>, A>(
    p: Optional<P>,
    f: spec_fn(Seq<I::Item>) -> Option<(Seq<I::Item>, A)>,
    va: spec_fn(P::Output) -> A,
)
    requires
        refines(p.parser, f, va),
    ensures
        refines(p, opt_fn(f), opt_view(va)),
        total(p.parser) ==> total(p),
{
}

/// Run `f`, then `g`, keeping both values.
pub open spec fn pair_fn<T, A, B>(
    f: spec_fn(Seq<T>) -> Option<(Seq<T>, A)>,
    g: spec_fn(Seq<T>) -> Option<(Seq<T>, B)>,
) -> spec_fn(Seq<T>) -> Option<(Seq<T>, (A, B))> {
    |s: Seq<T>| match f(s) {
        Some((m, a)) => match g(m) {
            Some((r, b)) => Some((r, (a, b))),
            None => None,
        },
        None => None,
    }
}

pub proof fn lemma_lift_a2_refines<I: Input, A, B, O, F: Fn(A, B) -> O, PA: Parser<I, Output = A>, PB: Parser<I, Output = B>, VA, VB, W>(
    p: LiftA2<F, PA, PB>,
    f: spec_fn(Seq<I::Item>) -> Option<(Seq<I::Item>, VA)>,
    va: spec_fn(A) -> VA,
    g: spec_fn(Seq<I::Item>) -> Option<(Seq<I::Item>, VB)>,
    vb: spec_fn(B) -> VB,
    h: spec_fn((VA, VB)) -> W,
    vo: spec_fn(O) -> W,
)
    requires
        refines(p.pa, f, va),
        refines(p.pb, g, vb),
        forall|a: A, b: B, o: O| #[trigger] call_ensures(p.f, (a, b), o) ==> vo(o) == h((va(a), vb(b))),
    ensures
        refines(p, map_fn(pair_fn(f, g), h), vo),
        total(p.pa) && total(p.pb) && (forall|a: A, b: B| call_requires(p.f, (a, b))) ==> total(p),
{
}

/// Applying the function read by `pf` to the value read by `pa` behaves as
/// pairing their functions and combining the views with `h`.
pub proof fn lemma_ap_refines<I: Input, O, A, F: Fn(A) -> O, PA: Parser<I, Output = A>, PF: Parser<I, Output = F>, VF, VA, W>(
    p: Ap<PF, PA>,
    f: spec_fn(Seq<I::Item>) -> Option<(Seq<I::Item>, VF)>,
    vf: spec_fn(F) -> VF,
    g: spec_fn(Seq<I::Item>) -> Option<(Seq<I::Item>, VA)>,
    va: spec_fn(A) -> VA,
    h: spec_fn((VF, VA)) -> W,
    vo: spec_fn(O) -> W,
)
    requires
        refines(p.pf, f, vf),
        refines(p.pa, g, va),
        forall|fun: F, a: A, o: O| #[trigger] call_ensures(fun, (a,), o) ==> vo(o) == h((vf(fun), va(a))),
    ensures
        refines(p, map_fn(pair_fn(f, g), h), vo),
        total(p.pf) && total(p.pa) && (forall|fun: F, a: A| call_requires(fun, (a,))) ==> total(p),
{
}

/// Run `f`, then the function that `k` gives for its value.
pub open spec fn bind_fn<T, A, B>(
    f: spec_fn(Seq<T>) -> Option<(Seq<T>, A)>,
    k: spec_fn(A) -> spec_fn(Seq<T>) -> Option<(Seq<T>, B)>,
) -> spec_fn(Seq<T>) -> Option<(Seq<T>, B)> {
    |s: Seq<T>| match f(s) {
        Some((m, a)) => k(a)(m),
        None => None,
    }
}

/// Where every parser that `f` makes from a value `a` behaves as `k` of the
/// view of `a`, `and_then` behaves as running `f`'s function and then that one.
pub proof fn lemma_and_then_refines<I: Input, A, B, F: Fn(A) -> Q, P: Parser<I, Output = A>, Q: Parser<I, Output = B>, VA, W>(
    p: AndThen<P, F>,
    f: spec_fn(Seq<I::Item>) -> Option<(Seq<I::Item>, VA)>,
    va: spec_fn(A) -> VA,
    k: spec_fn(VA) -> spec_fn(Seq<I::Item>) -> Option<(Seq<I::Item>, W)>,
    vo: spec_fn(B) -> W,
)
    requires
        refines(p.parser, f, va),
        forall|a: A, q: Q| #[trigger] call_ensures(p.f, (a,), q) ==> refines(q, k(va(a)), vo),
    ensures
        refines(p, bind_fn(f, k), vo),
        total(p.parser) && (forall|a: A| call_requires(p.f, (a,))) && (forall|a: A, q: Q|
            #[trigger] call_ensures(p.f, (a,), q) ==> total(q)) ==> total(p),
{
    assert forall|s: Seq<I::Item>, r: Seq<I::Item>, o: B| #[trigger] p.accepts(s, r, o) implies bind_fn(f, k)(s) == Some((r, vo(o))) by {
        let (m, a, q) = choose|m: Seq<I::Item>, a: A, q: Q| #[trigger] p.parser.accepts(s, m, a) && #[trigger] call_ensures(p.f, (a,), q) && q.accepts(m, r, o);
        assert(f(s) == Some((m, va(a))));
        assert(refines(q, k(va(a)), vo));
        assert(q.accepts(m, r, o));
    }
    assert forall|s: Seq<I::Item>, e: ParseErr| #[trigger] p.rejects(s, e) implies bind_fn(f, k)(s) is None by {
        if !p.parser.rejects(s, e) {
            let (m, a, q) = choose|m: Seq<I::Item>, a: A, q: Q| #[trigger] p.parser.accepts(s, m, a) && #[trigger] call_ensures(p.f, (a,), q) && q.rejects(m, e);
            assert(f(s) == Some((m, va(a))));
            assert(refines(q, k(va(a)), vo));
            assert(q.rejects(m, e));
        }
    }
}

/// A function given as a parse function on inputs whose results agree with
/// `f`.
pub open spec fn fn_refines<I: Input, O, F: Fn(I) -> crate::parser::ParseResult<I, O>, V>(
    func: F,
    f: spec_fn(Seq<I::Item>) -> Option<(Seq<I::Item>, V)>,
    view: spec_fn(O) -> V,
) -> bool {
    forall|i: I, r: crate::parser::ParseResult<I, O>| #[trigger] call_ensures(func, (i,), r) ==> match r {
        Ok((ri, o)) => f(i.items()) == Some((ri.items(), view(o))),
        Err(_) => f(i.items()) is None,
    }
}

pub proof fn lemma_lift_refines<I: Input, O, F: Fn(I) -> crate::parser::ParseResult<I, O>, V>(
    p: Lift<I, F>,
    f: spec_fn(Seq<I::Item>) -> Option<(Seq<I::Item>, V)>,
    view: spec_fn(O) -> V,
)
    requires
        fn_refines(p.func, f, view),
    ensures
        refines(p, f, view),
        (forall|i: I| call_requires(p.func, (i,))) ==> total(p),
{
    assert forall|s: Seq<I::Item>, r: Seq<I::Item>, o: O| #[trigger] p.accepts(s, r, o) implies f(s) == Some((r, view(o))) by {
        let (i, ri) = choose|i: I, ri: I| i.items() == s && ri.items() == r && #[trigger] call_ensures(p.func, (i,), Ok::<(I, O), ParseErr>((ri, o)));
        assert(call_ensures(p.func, (i,), Ok::<(I, O), ParseErr>((ri, o))));
    }
    assert forall|s: Seq<I::Item>, e: ParseErr| #[trigger] p.rejects(s, e) implies f(s) is None by {
        let i = choose|i: I| i.items() == s && #[trigger] call_ensures(p.func, (i,), Err::<(I, O), ParseErr>(e));
        assert(call_ensures(p.func, (i,), Err::<(I, O), ParseErr>(e)));
    }
}

/// Running `f` again and again from `s` while it succeeds: what is left and
/// the values read.
pub open spec fn iterate<T, A>(f: spec_fn(Seq<T>) -> Option<(Seq<T>, A)>, s: Seq<T>) -> (Seq<T>, Seq<A>)
    decreases s.len(),
{
    match f(s) {
        Some((r, a)) => if r.len() < s.len() {
            let (rest, xs) = iterate(f, r);
            (rest, seq![a] + xs)
        } else {
            (s, seq![])
        },
        None => (s, seq![]),
    }
}

pub open spec fn seq_view<O, A>(va: spec_fn(O) -> A) -> spec_fn(Vec<O>) -> Seq<A> {
    |v: Vec<O>| v@.map_values(va)
}

pub proof fn lemma_iter_pre<I: Input, P: Parser<I>, A>(
    p: P,
    f: spec_fn(Seq<I::Item>) -> Option<(Seq<I::Item>, A)>,
    va: spec_fn(P::Output) -> A,
    s: Seq<I::Item>,
)
    requires
        refines(p, f, va),
        progresses(f),
        total(p),
    ensures
        iter_pre(p, s),
    decreases s.len(),
{
    assert(p.parse_pre(s));
    assert forall|m: Seq<I::Item>, x: P::Output| #[trigger] p.accepts(s, m, x) implies m.len() < s.len()
        && iter_pre(p, m) by {
        assert(f(s) == Some((m, va(x))));
        lemma_iter_pre(p, f, va, m);
    }
}

pub proof fn lemma_chain_iterate<I: Input, P: Parser<I>, A>(
    p: P,
    f: spec_fn(Seq<I::Item>) -> Option<(Seq<I::Item>, A)>,
    va: spec_fn(P::Output) -> A,
    s: Seq<I::Item>,
    xs: Seq<P::Output>,
    rest: Seq<I::Item>,
    e: ParseErr,
)
    requires
        refines(p, f, va),
        progresses(f),
        chain(p, s, xs, rest),
        p.rejects(rest, e),
    ensures
        iterate(f, s) == (rest, xs.map_values(va)),
    decreases xs.len(),
{
    if xs.len() == 0 {
        assert(xs.map_values(va) =~= Seq::<A>::empty());
    } else {
        let m = choose|m: Seq<I::Item>| #[trigger] p.accepts(s, m, xs[0]) && chain(p, m, xs.drop_first(), rest);
        assert(f(s) == Some((m, va(xs[0]))));
        lemma_chain_iterate(p, f, va, m, xs.drop_first(), rest, e);
        assert(xs.map_values(va) =~= seq![va(xs[0])] + xs.drop_first().map_values(va));
    }
}

pub proof fn lemma_many_refines<I: Input, O, P: Parser<I, Output = O>, A>(
    p: Many<P>,
    f: spec_fn(Seq<I::Item>) -> Option<(Seq<I::Item>, A)>,
    va: spec_fn(O) -> A,
)
    requires
        refines(p.parser, f, va),
        progresses(f),
        total(p.parser),
    ensures
        refines(p, |s: Seq<I::Item>| Some(iterate(f, s)), seq_view(va)),
        total(p),
{
    assert forall|s: Seq<I::Item>, r: Seq<I::Item>, v: Vec<O>| #[trigger] p.accepts(s, r, v) implies Some(iterate(f, s)) == Some((r, seq_view(va)(v))) by {
        let e = choose|e: ParseErr| #[trigger] p.parser.rejects(r, e);
        lemma_chain_iterate(p.parser, f, va, s, v@, r, e);
    }
    assert forall|s: Seq<I::Item>| #[trigger] p.parse_pre(s) by {
        lemma_iter_pre(p.parser, f, va, s);
    }
}

pub proof fn lemma_many1_refines<I: Input, O, P: Parser<I, Output = O>, A>(
    p: Many1<P>,
    f: spec_fn(Seq<I::Item>) -> Option<(Seq<I::Item>, A)>,
    va: spec_fn(O) -> A,
)
    requires
        refines(p.parser, f, va),
        progresses(f),
        total(p.parser),
    ensures
        refines(
            p,
            |s: Seq<I::Item>| if iterate(f, s).1.len() > 0 { Some(iterate(f, s)) } else { None },
            seq_view(va),
        ),
        total(p),
{
    assert forall|s: Seq<I::Item>, r: Seq<I::Item>, v: Vec<O>| #[trigger] p.accepts(s, r, v) implies (if iterate(f, s).1.len() > 0 { Some(iterate(f, s)) } else { None }) == Some((r, seq_view(va)(v))) by {
        let e = choose|e: ParseErr| #[trigger] p.parser.rejects(r, e);
        lemma_chain_iterate(p.parser, f, va, s, v@, r, e);
    }
    assert forall|s: Seq<I::Item>| #[trigger] p.parse_pre(s) by {
        lemma_iter_pre(p.parser, f, va, s);
    }
}

pub proof fn lemma_skip_many_refines<I: Input, P: Parser<I>, A>(
    p: SkipMany<P>,
    f: spec_fn(Seq<I::Item>) -> Option<(Seq<I::Item>, A)>,
    va: spec_fn(P::Output) -> A,
)
    requires
        refines(p.parser, f, va),
        progresses(f),
        total(p.parser),
    ensures
        refines(p, |s: Seq<I::Item>| Some((iterate(f, s).0, ())), unit_view()),
        total(p),
{
    assert forall|s: Seq<I::Item>, r: Seq<I::Item>, v: ()| #[trigger] p.accepts(s, r, v) implies Some((iterate(f, s).0, ())) == Some((r, unit_view()(v))) by {
        let e = choose|e: ParseErr| #[trigger] p.parser.rejects(r, e);
        let xs = choose|xs: Seq<P::Output>| #[trigger] chain(p.parser, s, xs, r);
        lemma_chain_iterate(p.parser, f, va, s, xs, r, e);
    }
    assert forall|s: Seq<I::Item>| #[trigger] p.parse_pre(s) by {
        lemma_iter_pre(p.parser, f, va, s);
    }
}

/// After a first value: while `g` (the separator) succeeds, `f` must succeed
/// after it; the values `f` reads, or `None` where `f` fails after a `g`.
pub open spec fn sep_iterate<T, A, X>(
    g: spec_fn(Seq<T>) -> Option<(Seq<T>, X)>,
    f: spec_fn(Seq<T>) -> Option<(Seq<T>, A)>,
    m: Seq<T>,
) -> Option<(Seq<T>, Seq<A>)>
    decreases m.len(),
{
    match g(m) {
        None => Some((m, seq![])),
        Some((m1, _)) => match f(m1) {
            None => None,
            Some((m2, a)) => if m2.len() < m.len() {
                match sep_iterate(g, f, m2) {
                    Some((r, xs)) => Some((r, seq![a] + xs)),
                    None => None,
                }
            } else {
                None
            },
        },
    }
}

/// Values separated by `g`, possibly none.
pub open spec fn sep_by_fn<T, A, X>(
    f: spec_fn(Seq<T>) -> Option<(Seq<T>, A)>,
    g: spec_fn(Seq<T>) -> Option<(Seq<T>, X)>,
) -> spec_fn(Seq<T>) -> Option<(Seq<T>, Seq<A>)> {
    |s: Seq<T>| match f(s) {
        None => Some((s, seq![])),
        Some((m, a)) => match sep_iterate(g, f, m) {
            Some((r, xs)) => Some((r, seq![a] + xs)),
            None => None,
        },
    }
}

proof fn lemma_sep_chain<I: Input, P: Parser<I>, S: Parser<I>, A, X>(
    p: P,
    sep: S,
    f: spec_fn(Seq<I::Item>) -> Option<(Seq<I::Item>, A)>,
    va: spec_fn(P::Output) -> A,
    g: spec_fn(Seq<I::Item>) -> Option<(Seq<I::Item>, X)>,
    vx: spec_fn(S::Output) -> X,
    m: Seq<I::Item>,
    xs: Seq<P::Output>,
    m2: Seq<I::Item>,
)
    requires
        refines(p, f, va),
        refines(sep, g, vx),
        progresses(then_fn(g, f)),
        chain(Sequence { a: sep, b: p }, m, xs, m2),
    ensures
        (exists|e: ParseErr| #[trigger] sep.rejects(m2, e)) ==> sep_iterate(g, f, m) == Some(
            (m2, xs.map_values(va)),
        ),
        (exists|m3: Seq<I::Item>, y: S::Output, e: ParseErr|
            #[trigger] sep.accepts(m2, m3, y) && #[trigger] p.rejects(m3, e)) ==> sep_iterate(
            g,
            f,
            m,
        ) is None,
    decreases xs.len(),
{
    let q = Sequence { a: sep, b: p };
    if xs.len() == 0 {
        assert(xs.map_values(va) =~= Seq::<A>::empty());
    } else {
        let m1 = choose|m1: Seq<I::Item>| #[trigger] q.accepts(m, m1, xs[0]) && chain(q, m1, xs.drop_first(), m2);
        let (mm, y) = choose|mm: Seq<I::Item>, y: S::Output| #[trigger] sep.accepts(m, mm, y) && #[trigger] p.accepts(mm, m1, xs[0]);
        assert(g(m) == Some((mm, vx(y))));
        assert(f(mm) == Some((m1, va(xs[0]))));
        assert(then_fn(g, f)(m) == Some((m1, va(xs[0]))));
        lemma_sep_chain(p, sep, f, va, g, vx, m1, xs.drop_first(), m2);
        assert(xs.map_values(va) =~= seq![va(xs[0])] + xs.drop_first().map_values(va));
    }
}

pub proof fn lemma_sep_by_refines<I: Input, O, P: Parser<I, Output = O>, S: Parser<I>, A, X>(
    p: SepBy<P, S>,
    f: spec_fn(Seq<I::Item>) -> Option<(Seq<I::Item>, A)>,
    va: spec_fn(O) -> A,
    g: spec_fn(Seq<I::Item>) -> Option<(Seq<I::Item>, X)>,
    vx: spec_fn(S::Output) -> X,
)
    requires
        refines(p.parser, f, va),
        refines(p.sep, g, vx),
        progresses(then_fn(g, f)),
    ensures
        refines(p, sep_by_fn(f, g), seq_view(va)),
        total(p.parser) && total(p.sep) ==> total(p),
{
    let q = Sequence { a: p.sep, b: p.parser };
    lemma_seq_refines(q, g, vx, f, va);
    assert forall|s: Seq<I::Item>, r: Seq<I::Item>, v: Vec<O>| #[trigger] p.accepts(s, r, v) implies sep_by_fn(f, g)(s) == Some((r, seq_view(va)(v))) by {
        if v@.len() == 0 {
            let e = choose|e: ParseErr| #[trigger] p.parser.rejects(s, e);
            assert(v@.map_values(va) =~= Seq::<A>::empty());
        } else {
            let m = choose|m: Seq<I::Item>| #[trigger] p.parser.accepts(s, m, v@[0]) && crate::repeat::sep_tail_accepts(p.parser, p.sep, m, v@.drop_first(), r);
            lemma_sep_chain(p.parser, p.sep, f, va, g, vx, m, v@.drop_first(), r);
            assert(v@.map_values(va) =~= seq![va(v@[0])] + v@.drop_first().map_values(va));
        }
    }
    assert forall|s: Seq<I::Item>, e: ParseErr| #[trigger] p.rejects(s, e) implies sep_by_fn(f, g)(s) is None by {
        let (m, x) = choose|m: Seq<I::Item>, x: O| #[trigger] p.parser.accepts(s, m, x) && crate::repeat::sep_tail_rejects(p.parser, p.sep, m, e);
        let (xs, m2) = choose|xs: Seq<O>, m2: Seq<I::Item>| #[trigger] chain(q, m, xs, m2) && exists|m3: Seq<I::Item>, y: S::Output| #[trigger] p.sep.accepts(m2, m3, y) && p.parser.rejects(m3, e);
        lemma_sep_chain(p.parser, p.sep, f, va, g, vx, m, xs, m2);
    }
    if total(p.parser) && total(p.sep) {
        assert forall|s: Seq<I::Item>| #[trigger] p.parse_pre(s) by {
            assert forall|m: Seq<I::Item>| crate::repeat::sep_tail_pre(p.parser, p.sep, m) by {
                lemma_iter_pre(q, then_fn(g, f), va, m);
            }
        }
    }
}

// ------------------------------------------------- the other combinators

/// Views of the two values of a pair.
pub open spec fn pair_view<A, B, VA, VB>(va: spec_fn(A) -> VA, vb: spec_fn(B) -> VB) -> spec_fn((A, B)) -> (VA, VB) {
    |o: (A, B)| (va(o.0), vb(o.1))
}

pub proof fn lemma_and_refines<I: Input, P: Parser<I>, Q: Parser<I>, A, B>(
    p: And<P, Q>,
    f: spec_fn(Seq<I::Item>) -> Option<(Seq<I::Item>, A)>,
    va: spec_fn(P::Output) -> A,
    g: spec_fn(Seq<I::Item>) -> Option<(Seq<I::Item>, B)>,
    vb: spec_fn(Q::Output) -> B,
)
    requires
        refines(p.f, f, va),
        refines(p.g, g, vb),
    ensures
        refines(p, pair_fn(f, g), pair_view(va, vb)),
        total(p.f) && total(p.g) ==> total(p),
{
    assert forall|s: Seq<I::Item>, r: Seq<I::Item>, o: (P::Output, Q::Output)| #[trigger] p.accepts(s, r, o) implies pair_fn(f, g)(s) == Some((r, pair_view(va, vb)(o))) by {
        let m = choose|m: Seq<I::Item>| #[trigger] p.f.accepts(s, m, o.0) && p.g.accepts(m, r, o.1);
        assert(f(s) == Some((m, va(o.0))));
    }
}

/// Run `f`; where it fails, succeed reading nothing; forget the value.
pub open spec fn skip_opt_fn<T, A>(f: spec_fn(Seq<T>) -> Option<(Seq<T>, A)>) -> spec_fn(Seq<T>) -> Option<(Seq<T>, ())> {
    |s: Seq<T>| match f(s) {
        Some((r, _)) => Some((r, ())),
        None => Some((s, ())),
    }
}

pub proof fn lemma_skip_optional_refines<I: Input, P: Parser<I>, A>(
    p: SkipOptional<P>,
    f: spec_fn(Seq<I::Item>) -> Option<(Seq<I::Item>, A)>,
    va: spec_fn(P::Output) -> A,
)
    requires
        refines(p.parser, f, va),
    ensures
        refines(p, skip_opt_fn(f), unit_view()),
        total(p.parser) ==> total(p),
{
    assert forall|s: Seq<I::Item>, r: Seq<I::Item>, o: ()| #[trigger] p.accepts(s, r, o) implies skip_opt_fn(f)(s) == Some((r, unit_view()(o))) by {
        if exists|a: P::Output| #[trigger] p.parser.accepts(s, r, a) {
            let a = choose|a: P::Output| #[trigger] p.parser.accepts(s, r, a);
            assert(f(s) == Some((r, va(a))));
        } else {
            let e = choose|e: ParseErr| #[trigger] p.parser.rejects(s, e);
        }
    }
}

/// Succeed, reading nothing, only at the end of the input.
pub open spec fn end_fn<T>() -> spec_fn(Seq<T>) -> Option<(Seq<T>, ())> {
    |s: Seq<T>| if s.len() == 0 { Some((s, ())) } else { None }
}

pub proof fn lemma_eof_refines<I: Input>(p: EOF)
    where I::Item: DebugText
    ensures
        refines::<I, EOF, ()>(p, end_fn(), unit_view()),
        total::<I, EOF>(p),
{
}

/// Never succeed.
pub open spec fn fail_fn<T, V>() -> spec_fn(Seq<T>) -> Option<(Seq<T>, V)> {
    |s: Seq<T>| None
}

pub proof fn lemma_unexpected_refines<I: Input, O, V>(p: Unexpected<I, O>, view: spec_fn(O) -> V)
    ensures
        refines(p, fail_fn(), view),
        total(p),
{
}

/// Read nothing and give `v`.
pub open spec fn pure_fn<T, V>(v: V) -> spec_fn(Seq<T>) -> Option<(Seq<T>, V)> {
    |s: Seq<T>| Some((s, v))
}

pub proof fn lemma_pure_refines<I: Input, A, F: Fn() -> A, V>(p: Pure<I, F>, v: V, view: spec_fn(A) -> V)
    requires
        forall|a: A| #[trigger] call_ensures(p.f, (), a) ==> view(a) == v,
    ensures
        refines(p, pure_fn(v), view),
        call_requires(p.f, ()) ==> total(p),
{
}

/// Run `f` and keep its result only where `g` then fails on what is left,
/// without reading.
pub open spec fn not_followed_fn<T, A, X>(
    f: spec_fn(Seq<T>) -> Option<(Seq<T>, A)>,
    g: spec_fn(Seq<T>) -> Option<(Seq<T>, X)>,
) -> spec_fn(Seq<T>) -> Option<(Seq<T>, A)> {
    |s: Seq<T>| match f(s) {
        Some((r, a)) => if g(r) is None { Some((r, a)) } else { None },
        None => None,
    }
}

pub proof fn lemma_not_followed_by_refines<I: Input, O, P: Parser<I, Output = O>, Q: Parser<I>, A, X>(
    p: NotFollowedBy<P, Q>,
    f: spec_fn(Seq<I::Item>) -> Option<(Seq<I::Item>, A)>,
    va: spec_fn(O) -> A,
    g: spec_fn(Seq<I::Item>) -> Option<(Seq<I::Item>, X)>,
    vx: spec_fn(Q::Output) -> X,
)
    where Q::Output: DebugText
    requires
        refines(p.parser, f, va),
        refines(p.follow, g, vx),
    ensures
        refines(p, not_followed_fn(f, g), va),
        total(p.parser) && total(p.follow) ==> total(p),
{
    assert forall|s: Seq<I::Item>, r: Seq<I::Item>, o: O| #[trigger] p.accepts(s, r, o) implies not_followed_fn(f, g)(s) == Some((r, va(o))) by {
        let e = choose|e: ParseErr| #[trigger] p.follow.rejects(r, e);
    }
    assert forall|s: Seq<I::Item>, e: ParseErr| #[trigger] p.rejects(s, e) implies not_followed_fn(f, g)(s) is None by {
        if !p.parser.rejects(s, e) {
            let (m, o, m2, x) = choose|m: Seq<I::Item>, o: O, m2: Seq<I::Item>, x: Q::Output| #[trigger] p.parser.accepts(s, m, o) && #[trigger] p.follow.accepts(m, m2, x);
            assert(f(s) == Some((m, va(o))));
            assert(g(m) == Some((m2, vx(x))));
        }
    }
}

pub proof fn lemma_skip_some_refines<I: Input, P: Parser<I>, A>(
    p: SkipSome<P>,
    f: spec_fn(Seq<I::Item>) -> Option<(Seq<I::Item>, A)>,
    va: spec_fn(P::Output) -> A,
)
    requires
        refines(p.parser, f, va),
        progresses(f),
        total(p.parser),
    ensures
        refines(
            p,
            |s: Seq<I::Item>| if iterate(f, s).1.len() > 0 { Some((iterate(f, s).0, ())) } else { None },
            unit_view(),
        ),
        total(p),
{
    assert forall|s: Seq<I::Item>, r: Seq<I::Item>, v: ()| #[trigger] p.accepts(s, r, v) implies (if iterate(f, s).1.len() > 0 { Some((iterate(f, s).0, ())) } else { None }) == Some((r, unit_view()(v))) by {
        let e = choose|e: ParseErr| #[trigger] p.parser.rejects(r, e);
        let xs = choose|xs: Seq<P::Output>| xs.len() > 0 && #[trigger] chain(p.parser, s, xs, r);
        lemma_chain_iterate(p.parser, f, va, s, xs, r, e);
    }
    assert forall|s: Seq<I::Item>| #[trigger] p.parse_pre(s) by {
        lemma_iter_pre(p.parser, f, va, s);
    }
}

/// Values separated by `g`, at least one.
pub open spec fn sep_by1_fn<T, A, X>(
    f: spec_fn(Seq<T>) -> Option<(Seq<T>, A)>,
    g: spec_fn(Seq<T>) -> Option<(Seq<T>, X)>,
) -> spec_fn(Seq<T>) -> Option<(Seq<T>, Seq<A>)> {
    |s: Seq<T>| match f(s) {
        None => None,
        Some((m, a)) => match sep_iterate(g, f, m) {
            Some((r, xs)) => Some((r, seq![a] + xs)),
            None => None,
        },
    }
}

pub proof fn lemma_sep_by1_refines<I: Input, O, P: Parser<I, Output = O>, S: Parser<I>, A, X>(
    p: SepBy1<P, S>,
    f: spec_fn(Seq<I::Item>) -> Option<(Seq<I::Item>, A)>,
    va: spec_fn(O) -> A,
    g: spec_fn(Seq<I::Item>) -> Option<(Seq<I::Item>, X)>,
    vx: spec_fn(S::Output) -> X,
)
    requires
        refines(p.parser, f, va),
        refines(p.sep, g, vx),
        progresses(then_fn(g, f)),
    ensures
        refines(p, sep_by1_fn(f, g), seq_view(va)),
        total(p.parser) && total(p.sep) ==> total(p),
{
    let q = Sequence { a: p.sep, b: p.parser };
    lemma_seq_refines(q, g, vx, f, va);
    assert forall|s: Seq<I::Item>, r: Seq<I::Item>, v: Vec<O>| #[trigger] p.accepts(s, r, v) implies sep_by1_fn(f, g)(s) == Some((r, seq_view(va)(v))) by {
        let m = choose|m: Seq<I::Item>| #[trigger] p.parser.accepts(s, m, v@[0]) && crate::repeat::sep_tail_accepts(p.parser, p.sep, m, v@.drop_first(), r);
        lemma_sep_chain(p.parser, p.sep, f, va, g, vx, m, v@.drop_first(), r);
        assert(v@.map_values(va) =~= seq![va(v@[0])] + v@.drop_first().map_values(va));
    }
    assert forall|s: Seq<I::Item>, e: ParseErr| #[trigger] p.rejects(s, e) implies sep_by1_fn(f, g)(s) is None by {
        if !p.parser.rejects(s, e) {
            let (m, x) = choose|m: Seq<I::Item>, x: O| #[trigger] p.parser.accepts(s, m, x) && crate::repeat::sep_tail_rejects(p.parser, p.sep, m, e);
            let (xs, m2) = choose|xs: Seq<O>, m2: Seq<I::Item>| #[trigger] chain(q, m, xs, m2) && exists|m3: Seq<I::Item>, y: S::Output| #[trigger] p.sep.accepts(m2, m3, y) && p.parser.rejects(m3, e);
            lemma_sep_chain(p.parser, p.sep, f, va, g, vx, m, xs, m2);
        }
    }
    if total(p.parser) && total(p.sep) {
        assert forall|s: Seq<I::Item>| #[trigger] p.parse_pre(s) by {
            assert forall|m: Seq<I::Item>| crate::repeat::sep_tail_pre(p.parser, p.sep, m) by {
                lemma_iter_pre(q, then_fn(g, f), va, m);
            }
        }
    }
}

/// Running `f` `n` times in a row from `s`: what is left and the values
/// read, or `None` where one of the runs fails.
pub open spec fn repeat_fn<T, A>(f: spec_fn(Seq<T>) -> Option<(Seq<T>, A)>, n: nat, s: Seq<T>) -> Option<(Seq<T>, Seq<A>)>
    decreases n,
{
    if n == 0 {
        Some((s, seq![]))
    } else {
        match f(s) {
            None => None,
            Some((m, a)) => match repeat_fn(f, (n - 1) as nat, m) {
                None => None,
                Some((r, xs)) => Some((r, seq![a] + xs)),
            },
        }
    }
}

/// After runs of `p` that read `xs` from `s` and stop at `m`, the remaining
/// runs of `f` start at `m`.
proof fn lemma_chain_repeat<I: Input, P: Parser<I>, A>(
    p: P,
    f: spec_fn(Seq<I::Item>) -> Option<(Seq<I::Item>, A)>,
    va: spec_fn(P::Output) -> A,
    s: Seq<I::Item>,
    xs: Seq<P::Output>,
    m: Seq<I::Item>,
    k: nat,
)
    requires
        refines(p, f, va),
        chain(p, s, xs, m),
        xs.len() <= k,
    ensures
        repeat_fn(f, k, s) == (match repeat_fn(f, (k - xs.len()) as nat, m) {
            None => None,
            Some((r, ys)) => Some((r, xs.map_values(va) + ys)),
        }),
    decreases xs.len(),
{
    if xs.len() == 0 {
        match repeat_fn(f, k, s) {
            None => {},
            Some((r, ys)) => {
                assert(xs.map_values(va) + ys =~= ys);
            },
        }
    } else {
        let m1 = choose|m1: Seq<I::Item>| #[trigger] p.accepts(s, m1, xs[0]) && chain(p, m1, xs.drop_first(), m);
        assert(f(s) == Some((m1, va(xs[0]))));
        lemma_chain_repeat(p, f, va, m1, xs.drop_first(), m, (k - 1) as nat);
        match repeat_fn(f, (k - xs.len()) as nat, m) {
            None => {},
            Some((r, ys)) => {
                assert(xs.map_values(va) + ys =~= seq![va(xs[0])] + (xs.drop_first().map_values(va) + ys));
            },
        }
    }
}

/// A parser that can run on any input can be run `n` times in a row.
proof fn lemma_count_pre<I: Input, P: Parser<I>>(p: P, n: nat, s: Seq<I::Item>)
    requires
        total(p),
    ensures
        count_pre(p, s, n),
    decreases n,
{
    if n > 0 {
        assert(p.parse_pre(s));
        assert forall|m: Seq<I::Item>, x: P::Output| #[trigger] p.accepts(s, m, x) implies count_pre(p, m, (n - 1) as nat) by {
            lemma_count_pre(p, (n - 1) as nat, m);
        }
    }
}

/// `count` behaves as running the function of its parser `count` times.
pub proof fn lemma_count_refines<I: Input, O, P: Parser<I, Output = O>, A>(
    p: Count<P>,
    f: spec_fn(Seq<I::Item>) -> Option<(Seq<I::Item>, A)>,
    va: spec_fn(O) -> A,
)
    requires
        refines(p.parser, f, va),
    ensures
        refines(p, |s: Seq<I::Item>| repeat_fn(f, p.count as nat, s), seq_view(va)),
        total(p.parser) ==> total(p),
{
    assert forall|s: Seq<I::Item>, r: Seq<I::Item>, v: Vec<O>| #[trigger] p.accepts(s, r, v) implies repeat_fn(f, p.count as nat, s) == Some((r, seq_view(va)(v))) by {
        lemma_chain_repeat(p.parser, f, va, s, v@, r, p.count as nat);
        assert(v@.map_values(va) + seq![] =~= v@.map_values(va));
    }
    assert forall|s: Seq<I::Item>, e: ParseErr| #[trigger] p.rejects(s, e) implies repeat_fn(f, p.count as nat, s) is None by {
        let (xs, m) = choose|xs: Seq<O>, m: Seq<I::Item>| xs.len() < p.count && #[trigger] chain(p.parser, s, xs, m) && p.parser.rejects(m, e);
        lemma_chain_repeat(p.parser, f, va, s, xs, m, p.count as nat);
    }
    if total(p.parser) {
        assert forall|s: Seq<I::Item>| #[trigger] p.parse_pre(s) by {
            lemma_count_pre(p.parser, p.count as nat, s);
        }
    }
}

/// Until `h` succeeds, running `f` again and again from `s`: what is left
/// where `h` succeeds and the values `f` read, or `None` where `f` fails
/// first.
pub open spec fn till_fn<T, A, X>(
    f: spec_fn(Seq<T>) -> Option<(Seq<T>, A)>,
    h: spec_fn(Seq<T>) -> Option<(Seq<T>, X)>,
    s: Seq<T>,
) -> Option<(Seq<T>, Seq<A>)>
    decreases s.len(),
{
    match h(s) {
        Some(_) => Some((s, seq![])),
        None => match f(s) {
            None => None,
            Some((m, a)) => if m.len() < s.len() {
                match till_fn(f, h, m) {
                    None => None,
                    Some((r, xs)) => Some((r, seq![a] + xs)),
                }
            } else {
                None
            },
        },
    }
}

/// After runs of `p` that `many_till` makes from `s` to `m`, the rest of
/// `till_fn` starts at `m`.
proof fn lemma_till_chain_fn<I: Input, P: Parser<I>, Q: Parser<I>, A, X>(
    p: P,
    end: Q,
    f: spec_fn(Seq<I::Item>) -> Option<(Seq<I::Item>, A)>,
    va: spec_fn(P::Output) -> A,
    h: spec_fn(Seq<I::Item>) -> Option<(Seq<I::Item>, X)>,
    vx: spec_fn(Q::Output) -> X,
    s: Seq<I::Item>,
    xs: Seq<P::Output>,
    m: Seq<I::Item>,
)
    requires
        refines(p, f, va),
        refines(end, h, vx),
        progresses(f),
        till_chain(p, end, s, xs, m),
    ensures
        till_fn(f, h, s) == (match till_fn(f, h, m) {
            None => None,
            Some((r, ys)) => Some((r, xs.map_values(va) + ys)),
        }),
    decreases xs.len(),
{
    if xs.len() == 0 {
        match till_fn(f, h, s) {
            None => {},
            Some((r, ys)) => {
                assert(xs.map_values(va) + ys =~= ys);
            },
        }
    } else {
        let e = choose|e: ParseErr| #[trigger] end.rejects(s, e);
        let m1 = choose|m1: Seq<I::Item>| #[trigger] p.accepts(s, m1, xs[0]) && till_chain(p, end, m1, xs.drop_first(), m);
        assert(h(s) is None);
        assert(f(s) == Some((m1, va(xs[0]))));
        lemma_till_chain_fn(p, end, f, va, h, vx, m1, xs.drop_first(), m);
        match till_fn(f, h, m) {
            None => {},
            Some((r, ys)) => {
                assert(xs.map_values(va) + ys =~= seq![va(xs[0])] + (xs.drop_first().map_values(va) + ys));
            },
        }
    }
}

/// `many_till` behaves as running the function of its parser until that of
/// its `end` succeeds.
pub proof fn lemma_many_till_refines<I: Input, O, P: Parser<I, Output = O>, Q: Parser<I>, A, X>(
    p: ManyTill<P, Q>,
    f: spec_fn(Seq<I::Item>) -> Option<(Seq<I::Item>, A)>,
    va: spec_fn(O) -> A,
    h: spec_fn(Seq<I::Item>) -> Option<(Seq<I::Item>, X)>,
    vx: spec_fn(Q::Output) -> X,
)
    requires
        refines(p.parser, f, va),
        refines(p.end, h, vx),
        progresses(f),
    ensures
        refines(p, |s: Seq<I::Item>| till_fn(f, h, s), seq_view(va)),
        total(p.parser) && total(p.end) ==> total(p),
{
    assert forall|s: Seq<I::Item>, r: Seq<I::Item>, v: Vec<O>| #[trigger] p.accepts(s, r, v) implies till_fn(f, h, s) == Some((r, seq_view(va)(v))) by {
        lemma_till_chain_fn(p.parser, p.end, f, va, h, vx, s, v@, r);
        let (m, y) = choose|m: Seq<I::Item>, y: Q::Output| #[trigger] p.end.accepts(r, m, y);
        assert(h(r) is Some);
        assert(v@.map_values(va) + seq![] =~= v@.map_values(va));
    }
    assert forall|s: Seq<I::Item>, e: ParseErr| #[trigger] p.rejects(s, e) implies till_fn(f, h, s) is None by {
        let (xs, m) = choose|xs: Seq<O>, m: Seq<I::Item>| #[trigger] till_chain(p.parser, p.end, s, xs, m) && (exists|e1: ParseErr| #[trigger] p.end.rejects(m, e1)) && p.parser.rejects(m, e);
        let e1 = choose|e1: ParseErr| #[trigger] p.end.rejects(m, e1);
        assert(h(m) is None);
        assert(f(m) is None);
        lemma_till_chain_fn(p.parser, p.end, f, va, h, vx, s, xs, m);
    }
    if total(p.parser) && total(p.end) {
        assert forall|t: Seq<I::Item>, m: Seq<I::Item>, x: O| #[trigger] p.parser.accepts(t, m, x) implies m.len() < t.len() by {
            assert(f(t) == Some((m, va(x))));
        }
        assert forall|s: Seq<I::Item>| #[trigger] p.parse_pre(s) by {
            lemma_shrinking_till_pre(p.parser, p.end, s);
        }
    }
}

/// Running `f` and then `g` again and again from `s`, while `f` succeeds:
/// what is left where `f` fails and the values `f` read, or `None` where `g`
/// fails after `f`.
pub open spec fn end_by_fn<T, A, X>(
    f: spec_fn(Seq<T>) -> Option<(Seq<T>, A)>,
    g: spec_fn(Seq<T>) -> Option<(Seq<T>, X)>,
    s: Seq<T>,
) -> Option<(Seq<T>, Seq<A>)>
    decreases s.len(),
{
    match f(s) {
        None => Some((s, seq![])),
        Some((m, a)) => match g(m) {
            None => None,
            Some((m2, _)) => if m2.len() < s.len() {
                match end_by_fn(f, g, m2) {
                    None => None,
                    Some((r, xs)) => Some((r, seq![a] + xs)),
                }
            } else {
                None
            },
        },
    }
}

/// Where `f` then `g` reads at least one item, so does the pair of them.
proof fn lemma_pair_progresses<T, A, X>(
    f: spec_fn(Seq<T>) -> Option<(Seq<T>, A)>,
    g: spec_fn(Seq<T>) -> Option<(Seq<T>, X)>,
)
    requires
        progresses(then_fn(f, g)),
    ensures
        progresses(pair_fn(f, g)),
{
    assert forall|s: Seq<T>| #[trigger] pair_fn(f, g)(s) is Some implies pair_fn(f, g)(s).unwrap().0.len() < s.len() by {
        assert(then_fn(f, g)(s) is Some && then_fn(f, g)(s).unwrap().0 == pair_fn(f, g)(s).unwrap().0);
    }
}

/// After pairs of runs of `parser` and `sep` from `s` to `m`, the rest of
/// `end_by_fn` starts at `m`.
proof fn lemma_end_chain_fn<I: Input, P: Parser<I>, S: Parser<I>, A, X>(
    parser: P,
    sep: S,
    f: spec_fn(Seq<I::Item>) -> Option<(Seq<I::Item>, A)>,
    va: spec_fn(P::Output) -> A,
    g: spec_fn(Seq<I::Item>) -> Option<(Seq<I::Item>, X)>,
    vx: spec_fn(S::Output) -> X,
    s: Seq<I::Item>,
    ys: Seq<(P::Output, S::Output)>,
    m: Seq<I::Item>,
)
    requires
        refines(And { f: parser, g: sep }, pair_fn(f, g), pair_view(va, vx)),
        progresses(then_fn(f, g)),
        chain(And { f: parser, g: sep }, s, ys, m),
    ensures
        end_by_fn(f, g, s) == (match end_by_fn(f, g, m) {
            None => None,
            Some((r, zs)) => Some((r, firsts(ys).map_values(va) + zs)),
        }),
    decreases ys.len(),
{
    let q = And { f: parser, g: sep };
    if ys.len() == 0 {
        match end_by_fn(f, g, s) {
            None => {},
            Some((r, zs)) => {
                assert(firsts(ys).map_values(va) + zs =~= zs);
            },
        }
    } else {
        let m1 = choose|m1: Seq<I::Item>| #[trigger] q.accepts(s, m1, ys[0]) && chain(q, m1, ys.drop_first(), m);
        assert(pair_fn(f, g)(s) == Some((m1, pair_view(va, vx)(ys[0]))));
        assert(then_fn(f, g)(s) matches Some((r2, _)) && r2 == m1);
        lemma_end_chain_fn(parser, sep, f, va, g, vx, m1, ys.drop_first(), m);
        match end_by_fn(f, g, m) {
            None => {},
            Some((r, zs)) => {
                assert(firsts(ys).map_values(va) + zs =~= seq![va(ys[0].0)] + (firsts(ys.drop_first()).map_values(va) + zs));
            },
        }
    }
}

/// `end_by` behaves as running the functions of its parser and `sep` in
/// turn while that of the parser succeeds.
pub proof fn lemma_end_by_refines<I: Input, O, P: Parser<I, Output = O>, S: Parser<I>, A, X>(
    p: EndBy<P, S>,
    f: spec_fn(Seq<I::Item>) -> Option<(Seq<I::Item>, A)>,
    va: spec_fn(O) -> A,
    g: spec_fn(Seq<I::Item>) -> Option<(Seq<I::Item>, X)>,
    vx: spec_fn(S::Output) -> X,
)
    requires
        refines(p.parser, f, va),
        refines(p.sep, g, vx),
        progresses(then_fn(f, g)),
    ensures
        refines(p, |s: Seq<I::Item>| end_by_fn(f, g, s), seq_view(va)),
        total(p.parser) && total(p.sep) ==> total(p),
{
    let q = And { f: p.parser, g: p.sep };
    lemma_and_refines(q, f, va, g, vx);
    assert forall|s: Seq<I::Item>, r: Seq<I::Item>, v: Vec<O>| #[trigger] p.accepts(s, r, v) implies end_by_fn(f, g, s) == Some((r, seq_view(va)(v))) by {
        let ys = choose|ys: Seq<(O, S::Output)>| #[trigger] chain(q, s, ys, r) && v@ == firsts(ys);
        let e = choose|e: ParseErr| #[trigger] p.parser.rejects(r, e);
        lemma_end_chain_fn(p.parser, p.sep, f, va, g, vx, s, ys, r);
        assert(firsts(ys).map_values(va) + seq![] =~= v@.map_values(va));
    }
    assert forall|s: Seq<I::Item>, e: ParseErr| #[trigger] p.rejects(s, e) implies end_by_fn(f, g, s) is None by {
        let (ys, m2) = choose|ys: Seq<(O, S::Output)>, m2: Seq<I::Item>| #[trigger] chain(q, s, ys, m2) && exists|m3: Seq<I::Item>, x: O| #[trigger] p.parser.accepts(m2, m3, x) && p.sep.rejects(m3, e);
        let (m3, x) = choose|m3: Seq<I::Item>, x: O| #[trigger] p.parser.accepts(m2, m3, x) && p.sep.rejects(m3, e);
        assert(f(m2) == Some((m3, va(x))));
        assert(g(m3) is None);
        lemma_end_chain_fn(p.parser, p.sep, f, va, g, vx, s, ys, m2);
    }
    if total(p.parser) && total(p.sep) {
        lemma_pair_progresses(f, g);
        assert forall|s: Seq<I::Item>| #[trigger] p.parse_pre(s) by {
            lemma_iter_pre(q, pair_fn(f, g), pair_view(va, vx), s);
        }
    }
}

/// `end_by_1` behaves as `end_by` where the function of its parser succeeds
/// at the start, and fails elsewhere.
pub proof fn lemma_end_by1_refines<I: Input, O, P: Parser<I, Output = O>, S: Parser<I>, A, X>(
    p: EndBy1<P, S>,
    f: spec_fn(Seq<I::Item>) -> Option<(Seq<I::Item>, A)>,
    va: spec_fn(O) -> A,
    g: spec_fn(Seq<I::Item>) -> Option<(Seq<I::Item>, X)>,
    vx: spec_fn(S::Output) -> X,
)
    requires
        refines(p.parser, f, va),
        refines(p.sep, g, vx),
        progresses(then_fn(f, g)),
    ensures
        refines(p, |s: Seq<I::Item>| if f(s) is Some { end_by_fn(f, g, s) } else { None }, seq_view(va)),
        total(p.parser) && total(p.sep) ==> total(p),
{
    let q = And { f: p.parser, g: p.sep };
    lemma_and_refines(q, f, va, g, vx);
    assert forall|s: Seq<I::Item>, r: Seq<I::Item>, v: Vec<O>| #[trigger] p.accepts(s, r, v) implies (if f(s) is Some { end_by_fn(f, g, s) } else { None }) == Some((r, seq_view(va)(v))) by {
        let ys = choose|ys: Seq<(O, S::Output)>| #[trigger] chain(q, s, ys, r) && v@ == firsts(ys);
        let e = choose|e: ParseErr| #[trigger] p.parser.rejects(r, e);
        lemma_end_chain_fn(p.parser, p.sep, f, va, g, vx, s, ys, r);
        assert(firsts(ys).map_values(va) + seq![] =~= v@.map_values(va));
        let m1 = choose|m1: Seq<I::Item>| #[trigger] q.accepts(s, m1, ys[0]) && chain(q, m1, ys.drop_first(), r);
        assert(pair_fn(f, g)(s) == Some((m1, pair_view(va, vx)(ys[0]))));
    }
    assert forall|s: Seq<I::Item>, e: ParseErr| #[trigger] p.rejects(s, e) implies (if f(s) is Some { end_by_fn(f, g, s) } else { None }) is None by {
        if !p.parser.rejects(s, e) {
            let (ys, m2) = choose|ys: Seq<(O, S::Output)>, m2: Seq<I::Item>| #[trigger] chain(q, s, ys, m2) && exists|m3: Seq<I::Item>, x: O| #[trigger] p.parser.accepts(m2, m3, x) && p.sep.rejects(m3, e);
            let (m3, x) = choose|m3: Seq<I::Item>, x: O| #[trigger] p.parser.accepts(m2, m3, x) && p.sep.rejects(m3, e);
            assert(f(m2) == Some((m3, va(x))));
            assert(g(m3) is None);
            lemma_end_chain_fn(p.parser, p.sep, f, va, g, vx, s, ys, m2);
        }
    }
    if total(p.parser) && total(p.sep) {
        lemma_pair_progresses(f, g);
        assert forall|s: Seq<I::Item>| #[trigger] p.parse_pre(s) by {
            assert forall|m: Seq<I::Item>| crate::repeat::end_tail_pre(p.parser, p.sep, m) by {
                lemma_iter_pre(q, pair_fn(f, g), pair_view(va, vx), m);
            }
        }
    }
}

/// Running `f` and then `g` again and again from `s`, stopping where `f`
/// fails or where `g` fails after `f`: what is left and the values `f` read.
pub open spec fn sep_end_fn<T, A, X>(
    f: spec_fn(Seq<T>) -> Option<(Seq<T>, A)>,
    g: spec_fn(Seq<T>) -> Option<(Seq<T>, X)>,
    s: Seq<T>,
) -> (Seq<T>, Seq<A>)
    decreases s.len(),
{
    match f(s) {
        None => (s, seq![]),
        Some((m, a)) => match g(m) {
            None => (m, seq![a]),
            Some((m2, _)) => if m2.len() < s.len() {
                let (r, xs) = sep_end_fn(f, g, m2);
                (r, seq![a] + xs)
            } else {
                (m, seq![a])
            },
        },
    }
}

/// After pairs of runs of `parser` and `sep` from `s` to `m`, the rest of
/// `sep_end_fn` starts at `m`.
proof fn lemma_sep_end_chain_fn<I: Input, P: Parser<I>, S: Parser<I>, A, X>(
    parser: P,
    sep: S,
    f: spec_fn(Seq<I::Item>) -> Option<(Seq<I::Item>, A)>,
    va: spec_fn(P::Output) -> A,
    g: spec_fn(Seq<I::Item>) -> Option<(Seq<I::Item>, X)>,
    vx: spec_fn(S::Output) -> X,
    s: Seq<I::Item>,
    ys: Seq<(P::Output, S::Output)>,
    m: Seq<I::Item>,
)
    requires
        refines(And { f: parser, g: sep }, pair_fn(f, g), pair_view(va, vx)),
        progresses(then_fn(f, g)) || iter_pre(And { f: parser, g: sep }, s),
        chain(And { f: parser, g: sep }, s, ys, m),
    ensures
        sep_end_fn(f, g, s) == (sep_end_fn(f, g, m).0, firsts(ys).map_values(va) + sep_end_fn(f, g, m).1),
    decreases ys.len(),
{
    let q = And { f: parser, g: sep };
    if ys.len() == 0 {
        assert(firsts(ys).map_values(va) + sep_end_fn(f, g, m).1 =~= sep_end_fn(f, g, m).1);
    } else {
        let m1 = choose|m1: Seq<I::Item>| #[trigger] q.accepts(s, m1, ys[0]) && chain(q, m1, ys.drop_first(), m);
        assert(pair_fn(f, g)(s) == Some((m1, pair_view(va, vx)(ys[0]))));
        assert(then_fn(f, g)(s) is Some && then_fn(f, g)(s).unwrap().0 == m1);
        lemma_sep_end_chain_fn(parser, sep, f, va, g, vx, m1, ys.drop_first(), m);
        assert(firsts(ys).map_values(va) + sep_end_fn(f, g, m).1 =~= seq![va(ys[0].0)] + (firsts(ys.drop_first()).map_values(va) + sep_end_fn(f, g, m).1));
    }
}

/// What `sep_end_by` and `sep_end_by_1` accept agrees with `sep_end_fn`.
pub proof fn lemma_sep_end_accepts_fn<I: Input, P: Parser<I>, S: Parser<I>, A, X>(
    parser: P,
    sep: S,
    f: spec_fn(Seq<I::Item>) -> Option<(Seq<I::Item>, A)>,
    va: spec_fn(P::Output) -> A,
    g: spec_fn(Seq<I::Item>) -> Option<(Seq<I::Item>, X)>,
    vx: spec_fn(S::Output) -> X,
    s: Seq<I::Item>,
    xs: Seq<P::Output>,
    rest: Seq<I::Item>,
)
    requires
        refines(parser, f, va),
        refines(sep, g, vx),
        progresses(then_fn(f, g)) || iter_pre(And { f: parser, g: sep }, s),
        crate::repeat::sep_end_accepts(parser, sep, s, xs, rest),
    ensures
        sep_end_fn(f, g, s) == (rest, xs.map_values(va)),
        xs.len() > 0 ==> f(s) is Some,
{
    let q = And { f: parser, g: sep };
    lemma_and_refines(q, f, va, g, vx);
    if crate::repeat::end_tail_accepts(parser, sep, s, xs, rest) {
        let ys = choose|ys: Seq<(P::Output, S::Output)>| #[trigger] chain(q, s, ys, rest) && xs == firsts(ys);
        let e = choose|e: ParseErr| #[trigger] parser.rejects(rest, e);
        lemma_sep_end_chain_fn(parser, sep, f, va, g, vx, s, ys, rest);
        assert(firsts(ys).map_values(va) + seq![] =~= xs.map_values(va));
        if xs.len() > 0 {
            let m1 = choose|m1: Seq<I::Item>| #[trigger] q.accepts(s, m1, ys[0]) && chain(q, m1, ys.drop_first(), rest);
            assert(pair_fn(f, g)(s) == Some((m1, pair_view(va, vx)(ys[0]))));
        }
    } else {
        let (ys, m2, o) = choose|ys: Seq<(P::Output, S::Output)>, m2: Seq<I::Item>, o: P::Output| #[trigger] chain(q, s, ys, m2) && #[trigger] parser.accepts(m2, rest, o) && xs == firsts(ys).push(o);
        let e = choose|e: ParseErr| #[trigger] sep.rejects(rest, e);
        assert(f(m2) == Some((rest, va(o))));
        assert(g(rest) is None);
        assert(sep_end_fn(f, g, m2) == (rest, seq![va(o)]));
        lemma_sep_end_chain_fn(parser, sep, f, va, g, vx, s, ys, m2);
        assert(firsts(ys).map_values(va) + seq![va(o)] =~= xs.map_values(va));
        if ys.len() > 0 {
            let m1 = choose|m1: Seq<I::Item>| #[trigger] q.accepts(s, m1, ys[0]) && chain(q, m1, ys.drop_first(), m2);
            assert(pair_fn(f, g)(s) == Some((m1, pair_view(va, vx)(ys[0]))));
        } else {
            assert(m2 == s);
        }
    }
}

/// `sep_end_by` behaves as running the functions of its parser and `sep` in
/// turn for as long as both succeed.
pub proof fn lemma_sep_end_by_refines<I: Input, O, P: Parser<I, Output = O>, S: Parser<I>, A, X>(
    p: SepEndBy<P, S>,
    f: spec_fn(Seq<I::Item>) -> Option<(Seq<I::Item>, A)>,
    va: spec_fn(O) -> A,
    g: spec_fn(Seq<I::Item>) -> Option<(Seq<I::Item>, X)>,
    vx: spec_fn(S::Output) -> X,
)
    requires
        refines(p.parser, f, va),
        refines(p.sep, g, vx),
        progresses(then_fn(f, g)),
    ensures
        refines(p, |s: Seq<I::Item>| Some(sep_end_fn(f, g, s)), seq_view(va)),
        total(p.parser) && total(p.sep) ==> total(p),
{
    let q = And { f: p.parser, g: p.sep };
    lemma_and_refines(q, f, va, g, vx);
    assert forall|s: Seq<I::Item>, r: Seq<I::Item>, v: Vec<O>| #[trigger] p.accepts(s, r, v) implies Some(sep_end_fn(f, g, s)) == Some((r, seq_view(va)(v))) by {
        lemma_sep_end_accepts_fn(p.parser, p.sep, f, va, g, vx, s, v@, r);
    }
    if total(p.parser) && total(p.sep) {
        lemma_pair_progresses(f, g);
        assert forall|s: Seq<I::Item>| #[trigger] p.parse_pre(s) by {
            lemma_iter_pre(q, pair_fn(f, g), pair_view(va, vx), s);
        }
    }
}

/// `sep_end_by_1` behaves as `sep_end_by` where the function of its parser
/// succeeds at the start, and fails elsewhere.
pub proof fn lemma_sep_end_by1_refines<I: Input, O, P: Parser<I, Output = O>, S: Parser<I>, A, X>(
    p: SepEndBy1<P, S>,
    f: spec_fn(Seq<I::Item>) -> Option<(Seq<I::Item>, A)>,
    va: spec_fn(O) -> A,
    g: spec_fn(Seq<I::Item>) -> Option<(Seq<I::Item>, X)>,
    vx: spec_fn(S::Output) -> X,
)
    requires
        refines(p.parser, f, va),
        refines(p.sep, g, vx),
        progresses(then_fn(f, g)),
    ensures
        refines(p, |s: Seq<I::Item>| if f(s) is Some { Some(sep_end_fn(f, g, s)) } else { None }, seq_view(va)),
        total(p.parser) && total(p.sep) ==> total(p),
{
    let q = And { f: p.parser, g: p.sep };
    lemma_and_refines(q, f, va, g, vx);
    assert forall|s: Seq<I::Item>, r: Seq<I::Item>, v: Vec<O>| #[trigger] p.accepts(s, r, v) implies (if f(s) is Some { Some(sep_end_fn(f, g, s)) } else { None }) == Some((r, seq_view(va)(v))) by {
        lemma_sep_end_accepts_fn(p.parser, p.sep, f, va, g, vx, s, v@, r);
    }
    if total(p.parser) && total(p.sep) {
        lemma_pair_progresses(f, g);
        assert forall|s: Seq<I::Item>| #[trigger] p.parse_pre(s) by {
            assert forall|m: Seq<I::Item>| crate::repeat::end_tail_pre(p.parser, p.sep, m) by {
                lemma_iter_pre(q, pair_fn(f, g), pair_view(va, vx), m);
            }
        }
    }
}

/// Where a refining parser may fail, its function fails.
pub proof fn lemma_refines_rejects<I: Input, P: Parser<I>, V>(
    p: P,
    f: spec_fn(Seq<I::Item>) -> Option<(Seq<I::Item>, V)>,
    view: spec_fn(P::Output) -> V,
    s: Seq<I::Item>,
    e: ParseErr,
)
    requires
        refines(p, f, view),
        p.rejects(s, e),
    ensures
        f(s) is None,
{
}

/// An `Or` fails with the error of its second part.
pub proof fn lemma_or_rejects<I: Input, O, P: Parser<I, Output = O>, Q: Parser<I, Output = O>>(
    p: Or<P, Q>,
    s: Seq<I::Item>,
    e: ParseErr,
)
    requires
        p.rejects(s, e),
    ensures
        p.g.rejects(s, e),
{
}

/// A `Mapped` fails with the errors of the parser under it.
pub proof fn lemma_map_rejects<I: Input, O, P: Parser<I>, F: Fn(P::Output) -> O>(
    p: Mapped<P, F>,
    s: Seq<I::Item>,
    e: ParseErr,
)
    requires
        p.rejects(s, e),
    ensures
        p.parser.rejects(s, e),
{
}

/// Every error `e` that `func` returns on an input with items `s` has
/// `err(s, e)`.
pub open spec fn fn_errors<I: Input, O, F: Fn(I) -> crate::parser::ParseResult<I, O>>(
    func: F,
    err: spec_fn(Seq<I::Item>, ParseErr) -> bool,
) -> bool {
    forall|i: I, e: ParseErr| #[trigger] call_ensures(func, (i,), Err::<(I, O), ParseErr>(e)) ==> err(i.items(), e)
}

/// A lifted function fails with the errors the function returns.
pub proof fn lemma_lift_errors<I: Input, O, F: Fn(I) -> crate::parser::ParseResult<I, O>>(
    p: Lift<I, F>,
    err: spec_fn(Seq<I::Item>, ParseErr) -> bool,
)
    requires
        fn_errors(p.func, err),
    ensures
        forall|s: Seq<I::Item>, e: ParseErr| #[trigger] p.rejects(s, e) ==> err(s, e),
{
    assert forall|s: Seq<I::Item>, e: ParseErr| #[trigger] p.rejects(s, e) implies err(s, e) by {
        let i = choose|i: I| i.items() == s && #[trigger] call_ensures(p.func, (i,), Err::<(I, O), ParseErr>(e));
    }
}

/// The error of a `Surrounded` whose parts agree with `f` and `g`, whose
/// middle never fails and whose `surround` fails with `gerr`: that of the
/// first `surround`, or else that of the second one, where the middle stopped.
pub proof fn lemma_surround_errors<I: Input, P: Parser<I>, S: Parser<I>, A, X>(
    p: Surrounded<P, S>,
    f: spec_fn(Seq<I::Item>) -> Option<(Seq<I::Item>, A)>,
    va: spec_fn(P::Output) -> A,
    g: spec_fn(Seq<I::Item>) -> Option<(Seq<I::Item>, X)>,
    vx: spec_fn(S::Output) -> X,
    gerr: spec_fn(Seq<I::Item>) -> ParseErr,
    s: Seq<I::Item>,
    e: ParseErr,
)
    requires
        refines(p.parser, f, va),
        refines(p.surround, g, vx),
        forall|t: Seq<I::Item>, e1: ParseErr| #[trigger] p.surround.rejects(t, e1) ==> e1 == gerr(t),
        forall|t: Seq<I::Item>, e1: ParseErr| !#[trigger] p.parser.rejects(t, e1),
        p.rejects(s, e),
    ensures
        match g(s) {
            None => e == gerr(s),
            Some((m1, _)) => match f(m1) {
                Some((m2, _)) => e == gerr(m2),
                None => false,
            },
        },
{
    if !p.surround.rejects(s, e) {
        let (m1, x) = choose|m1: Seq<I::Item>, x: S::Output| #[trigger] p.surround.accepts(s, m1, x) && (p.parser.rejects(m1, e) || exists|m2: Seq<I::Item>, o: P::Output| #[trigger] p.parser.accepts(m1, m2, o) && p.surround.rejects(m2, e));
        let (m2, o) = choose|m2: Seq<I::Item>, o: P::Output| #[trigger] p.parser.accepts(m1, m2, o) && p.surround.rejects(m2, e);
    }
}

/// `e` is how values separated by `g` can fail after a first value at `m`:
/// for as long as `g` and then `f` succeed the reading goes on, and where `g`
/// succeeds and `f` fails after it, `f` fails with `e`, which `ferr` allows.
pub open spec fn sep_iterate_err<T, A, X>(
    g: spec_fn(Seq<T>) -> Option<(Seq<T>, X)>,
    f: spec_fn(Seq<T>) -> Option<(Seq<T>, A)>,
    ferr: spec_fn(Seq<T>, ParseErr) -> bool,
    m: Seq<T>,
    e: ParseErr,
) -> bool
    decreases m.len(),
{
    match g(m) {
        None => false,
        Some((m1, _)) => match f(m1) {
            None => ferr(m1, e),
            Some((m2, _)) => m2.len() < m.len() && sep_iterate_err(g, f, ferr, m2, e),
        },
    }
}

proof fn lemma_sep_chain_err<I: Input, P: Parser<I>, S: Parser<I>, A, X>(
    p: P,
    sep: S,
    f: spec_fn(Seq<I::Item>) -> Option<(Seq<I::Item>, A)>,
    va: spec_fn(P::Output) -> A,
    g: spec_fn(Seq<I::Item>) -> Option<(Seq<I::Item>, X)>,
    vx: spec_fn(S::Output) -> X,
    ferr: spec_fn(Seq<I::Item>, ParseErr) -> bool,
    m: Seq<I::Item>,
    xs: Seq<P::Output>,
    m2: Seq<I::Item>,
    e: ParseErr,
)
    requires
        refines(p, f, va),
        refines(sep, g, vx),
        progresses(then_fn(g, f)),
        forall|t: Seq<I::Item>, e1: ParseErr| #[trigger] p.rejects(t, e1) ==> ferr(t, e1),
        chain(Sequence { a: sep, b: p }, m, xs, m2),
        exists|m3: Seq<I::Item>, y: S::Output| #[trigger] sep.accepts(m2, m3, y) && p.rejects(m3, e),
    ensures
        sep_iterate_err(g, f, ferr, m, e),
    decreases xs.len(),
{
    let q = Sequence { a: sep, b: p };
    if xs.len() == 0 {
        let (m3, y) = choose|m3: Seq<I::Item>, y: S::Output| #[trigger] sep.accepts(m2, m3, y) && p.rejects(m3, e);
        assert(g(m) == Some((m3, vx(y))));
    } else {
        let m1 = choose|m1: Seq<I::Item>| #[trigger] q.accepts(m, m1, xs[0]) && chain(q, m1, xs.drop_first(), m2);
        let (mm, y) = choose|mm: Seq<I::Item>, y: S::Output| #[trigger] sep.accepts(m, mm, y) && #[trigger] p.accepts(mm, m1, xs[0]);
        assert(g(m) == Some((mm, vx(y))));
        assert(f(mm) == Some((m1, va(xs[0]))));
        assert(then_fn(g, f)(m) == Some((m1, va(xs[0]))));
        lemma_sep_chain_err(p, sep, f, va, g, vx, ferr, m1, xs.drop_first(), m2, e);
    }
}

/// How `sep_by` fails: after a first value, a separator succeeds and the
/// parser after it fails.
pub proof fn lemma_sep_by_errors<I: Input, O, P: Parser<I, Output = O>, S: Parser<I>, A, X>(
    p: SepBy<P, S>,
    f: spec_fn(Seq<I::Item>) -> Option<(Seq<I::Item>, A)>,
    va: spec_fn(O) -> A,
    g: spec_fn(Seq<I::Item>) -> Option<(Seq<I::Item>, X)>,
    vx: spec_fn(S::Output) -> X,
    ferr: spec_fn(Seq<I::Item>, ParseErr) -> bool,
)
    requires
        refines(p.parser, f, va),
        refines(p.sep, g, vx),
        progresses(then_fn(g, f)),
        forall|t: Seq<I::Item>, e1: ParseErr| #[trigger] p.parser.rejects(t, e1) ==> ferr(t, e1),
    ensures
        forall|s: Seq<I::Item>, e: ParseErr| #[trigger] p.rejects(s, e) ==> match f(s) {
            None => false,
            Some((m, _)) => sep_iterate_err(g, f, ferr, m, e),
        },
{
    let q = Sequence { a: p.sep, b: p.parser };
    assert forall|s: Seq<I::Item>, e: ParseErr| #[trigger] p.rejects(s, e) implies match f(s) {
        None => false,
        Some((m, _)) => sep_iterate_err(g, f, ferr, m, e),
    } by {
        let (m, x) = choose|m: Seq<I::Item>, x: O| #[trigger] p.parser.accepts(s, m, x) && crate::repeat::sep_tail_rejects(p.parser, p.sep, m, e);
        let (xs, m2) = choose|xs: Seq<O>, m2: Seq<I::Item>| #[trigger] chain(q, m, xs, m2) && exists|m3: Seq<I::Item>, y: S::Output| #[trigger] p.sep.accepts(m2, m3, y) && p.parser.rejects(m3, e);
        assert(f(s) == Some((m, va(x))));
        lemma_sep_chain_err(p.parser, p.sep, f, va, g, vx, ferr, m, xs, m2, e);
    }
}

/// How `bracket` fails: `brac` fails, or the parser fails after it, or `ket`
/// fails after both.
pub proof fn lemma_bracket_errors<I: Input, P: Parser<I>, B: Parser<I>, K: Parser<I>, A, X, Y>(
    p: Bracket<P, B, K>,
    f: spec_fn(Seq<I::Item>) -> Option<(Seq<I::Item>, A)>,
    va: spec_fn(P::Output) -> A,
    g: spec_fn(Seq<I::Item>) -> Option<(Seq<I::Item>, X)>,
    vx: spec_fn(B::Output) -> X,
    h: spec_fn(Seq<I::Item>) -> Option<(Seq<I::Item>, Y)>,
    vy: spec_fn(K::Output) -> Y,
    perr: spec_fn(Seq<I::Item>, ParseErr) -> bool,
    berr: spec_fn(Seq<I::Item>, ParseErr) -> bool,
    kerr: spec_fn(Seq<I::Item>, ParseErr) -> bool,
)
    requires
        refines(p.parser, f, va),
        refines(p.brac, g, vx),
        refines(p.ket, h, vy),
        forall|t: Seq<I::Item>, e1: ParseErr| #[trigger] p.parser.rejects(t, e1) ==> perr(t, e1),
        forall|t: Seq<I::Item>, e1: ParseErr| #[trigger] p.brac.rejects(t, e1) ==> berr(t, e1),
        forall|t: Seq<I::Item>, e1: ParseErr| #[trigger] p.ket.rejects(t, e1) ==> kerr(t, e1),
    ensures
        forall|s: Seq<I::Item>, e: ParseErr| #[trigger] p.rejects(s, e) ==> match g(s) {
            None => berr(s, e),
            Some((m1, _)) => match f(m1) {
                None => perr(m1, e),
                Some((m2, _)) => kerr(m2, e),
            },
        },
{
    assert forall|s: Seq<I::Item>, e: ParseErr| #[trigger] p.rejects(s, e) implies match g(s) {
        None => berr(s, e),
        Some((m1, _)) => match f(m1) {
            None => perr(m1, e),
            Some((m2, _)) => kerr(m2, e),
        },
    } by {
        if !p.brac.rejects(s, e) {
            let (m1, x) = choose|m1: Seq<I::Item>, x: B::Output| #[trigger] p.brac.accepts(s, m1, x) && {
                ||| p.parser.rejects(m1, e)
                ||| exists|m2: Seq<I::Item>, o: P::Output| #[trigger] p.parser.accepts(m1, m2, o) && p.ket.rejects(m2, e)
            };
            assert(g(s) == Some((m1, vx(x))));
            if !p.parser.rejects(m1, e) {
                let (m2, o) = choose|m2: Seq<I::Item>, o: P::Output| #[trigger] p.parser.accepts(m1, m2, o) && p.ket.rejects(m2, e);
                assert(f(m1) == Some((m2, va(o))));
            }
        }
    }
}

/// How `lift_a_2` fails: its first parser fails, or its second fails after it.
pub proof fn lemma_lift_a2_errors<I: Input, A, B, O, F: Fn(A, B) -> O, PA: Parser<I, Output = A>, PB: Parser<I, Output = B>, V>(
    p: LiftA2<F, PA, PB>,
    f: spec_fn(Seq<I::Item>) -> Option<(Seq<I::Item>, V)>,
    va: spec_fn(A) -> V,
    aerr: spec_fn(Seq<I::Item>, ParseErr) -> bool,
    berr: spec_fn(Seq<I::Item>, ParseErr) -> bool,
)
    requires
        refines(p.pa, f, va),
        forall|t: Seq<I::Item>, e1: ParseErr| #[trigger] p.pa.rejects(t, e1) ==> aerr(t, e1),
        forall|t: Seq<I::Item>, e1: ParseErr| #[trigger] p.pb.rejects(t, e1) ==> berr(t, e1),
    ensures
        forall|s: Seq<I::Item>, e: ParseErr| #[trigger] p.rejects(s, e) ==> match f(s) {
            None => aerr(s, e),
            Some((m, _)) => berr(m, e),
        },
{
    assert forall|s: Seq<I::Item>, e: ParseErr| #[trigger] p.rejects(s, e) implies match f(s) {
        None => aerr(s, e),
        Some((m, _)) => berr(m, e),
    } by {
        if !p.pa.rejects(s, e) {
            let (m, a) = choose|m: Seq<I::Item>, a: A| #[trigger] p.pa.accepts(s, m, a) && p.pb.rejects(m, e);
            assert(f(s) == Some((m, va(a))));
        }
    }
}

/// How `seq` fails: its first parser fails, or its second fails after it.
pub proof fn lemma_seq_errors<I: Input, P: Parser<I>, Q: Parser<I>, A>(
    p: Sequence<P, Q>,
    f: spec_fn(Seq<I::Item>) -> Option<(Seq<I::Item>, A)>,
    va: spec_fn(P::Output) -> A,
    aerr: spec_fn(Seq<I::Item>, ParseErr) -> bool,
    berr: spec_fn(Seq<I::Item>, ParseErr) -> bool,
)
    requires
        refines(p.a, f, va),
        forall|t: Seq<I::Item>, e1: ParseErr| #[trigger] p.a.rejects(t, e1) ==> aerr(t, e1),
        forall|t: Seq<I::Item>, e1: ParseErr| #[trigger] p.b.rejects(t, e1) ==> berr(t, e1),
    ensures
        forall|s: Seq<I::Item>, e: ParseErr| #[trigger] p.rejects(s, e) ==> match f(s) {
            None => aerr(s, e),
            Some((m, _)) => berr(m, e),
        },
{
    assert forall|s: Seq<I::Item>, e: ParseErr| #[trigger] p.rejects(s, e) implies match f(s) {
        None => aerr(s, e),
        Some((m, _)) => berr(m, e),
    } by {
        if !p.a.rejects(s, e) {
            let (m, x) = choose|m: Seq<I::Item>, x: P::Output| #[trigger] p.a.accepts(s, m, x) && p.b.rejects(m, e);
            assert(f(s) == Some((m, va(x))));
        }
    }
}

/// How a `Sequence` of refining parsers may fail: the first part fails, or
/// it succeeds and the second part fails where the first stopped.
pub proof fn lemma_seq_rejects_at<I: Input, P: Parser<I>, Q: Parser<I>, A, B>(
    p: Sequence<P, Q>,
    f: spec_fn(Seq<I::Item>) -> Option<(Seq<I::Item>, A)>,
    va: spec_fn(P::Output) -> A,
    g: spec_fn(Seq<I::Item>) -> Option<(Seq<I::Item>, B)>,
    vb: spec_fn(Q::Output) -> B,
    s: Seq<I::Item>,
    e: ParseErr,
)
    requires
        refines(p.a, f, va),
        refines(p.b, g, vb),
        p.rejects(s, e),
    ensures
        match f(s) {
            None => p.a.rejects(s, e),
            Some((m, _)) => p.a.rejects(s, e) || p.b.rejects(m, e),
        },
{
}

/// Runs a parser that refines `f`, and says what it gave in terms of `f`.
pub(crate) fn parse_refined<I: Input, O, P: Parser<I, Output = O>, V>(
    p: &P,
    input: I,
    Ghost(f): Ghost<spec_fn(Seq<I::Item>) -> Option<(Seq<I::Item>, V)>>,
    Ghost(view): Ghost<spec_fn(O) -> V>,
) -> (r: crate::parser::ParseResult<I, O>)
    requires
        refines(*p, f, view),
        p.parse_pre(input.items()),
    ensures
        match r {
            Ok((rest, o)) => f(input.items()) == Some((rest.items(), view(o))),
            Err(e) => f(input.items()) is None && p.rejects(input.items(), e),
        },
{
    p.parse(input)
}

/// Repeating a function that reads at least one item each time leaves no
/// more than it started with.
pub proof fn lemma_iterate_len<T, A>(f: spec_fn(Seq<T>) -> Option<(Seq<T>, A)>, s: Seq<T>)
    ensures
        iterate(f, s).0.len() <= s.len(),
    decreases s.len(),
{
    if let Some((r, a)) = f(s) {
        if r.len() < s.len() {
            lemma_iterate_len(f, r);
        }
    }
}

/// `p` can run on every input shorter than `n`.
pub open spec fn total_below<I: Input, P: Parser<I>>(p: P, n: nat) -> bool {
    forall|s: Seq<I::Item>| s.len() < n ==> #[trigger] p.parse_pre(s)
}

/// `f` never leaves more than it was given.
pub open spec fn shrinks<T, V>(f: spec_fn(Seq<T>) -> Option<(Seq<T>, V)>) -> bool {
    forall|s: Seq<T>| #[trigger] f(s) matches Some((r, _)) ==> r.len() <= s.len()
}

pub proof fn lemma_lift_below<I: Input, O, F: Fn(I) -> crate::parser::ParseResult<I, O>>(
    p: Lift<I, F>,
    n: nat,
)
    requires
        forall|i: I| i.items().len() < n ==> call_requires(p.func, (i,)),
    ensures
        total_below(p, n),
{
}

pub proof fn lemma_seq_below<I: Input, P: Parser<I>, Q: Parser<I>, A>(
    p: Sequence<P, Q>,
    f: spec_fn(Seq<I::Item>) -> Option<(Seq<I::Item>, A)>,
    va: spec_fn(P::Output) -> A,
    n: nat,
)
    requires
        refines(p.a, f, va),
        shrinks(f),
        total_below(p.a, n),
        total_below(p.b, n),
    ensures
        total_below(p, n),
{
}

pub proof fn lemma_lift_a2_below<I: Input, A, B, O, F: Fn(A, B) -> O, PA: Parser<I, Output = A>, PB: Parser<I, Output = B>, VA>(
    p: LiftA2<F, PA, PB>,
    f: spec_fn(Seq<I::Item>) -> Option<(Seq<I::Item>, VA)>,
    va: spec_fn(A) -> VA,
    n: nat,
)
    requires
        refines(p.pa, f, va),
        shrinks(f),
        total_below(p.pa, n),
        total_below(p.pb, n),
        forall|a: A, b: B| call_requires(p.f, (a, b)),
    ensures
        total_below(p, n),
{
}

pub proof fn lemma_map_below<I: Input, A, O, P: Parser<I, Output = A>, F: Fn(A) -> O>(
    p: Mapped<P, F>,
    n: nat,
)
    requires
        total_below(p.parser, n),
        forall|a: A| call_requires(p.func, (a,)),
    ensures
        total_below(p, n),
{
}

pub proof fn lemma_or_below<I: Input, O, P: Parser<I, Output = O>, Q: Parser<I, Output = O>>(
    p: Or<P, Q>,
    n: nat,
)
    requires
        total_below(p.f, n),
        total_below(p.g, n),
    ensures
        total_below(p, n),
{
}

pub proof fn lemma_iter_pre_below<I: Input, P: Parser<I>, A>(
    p: P,
    f: spec_fn(Seq<I::Item>) -> Option<(Seq<I::Item>, A)>,
    va: spec_fn(P::Output) -> A,
    n: nat,
    s: Seq<I::Item>,
)
    requires
        refines(p, f, va),
        progresses(f),
        total_below(p, n),
        s.len() < n,
    ensures
        iter_pre(p, s),
    decreases s.len(),
{
    assert(p.parse_pre(s));
    assert forall|m: Seq<I::Item>, x: P::Output| #[trigger] p.accepts(s, m, x) implies m.len() < s.len()
        && iter_pre(p, m) by {
        assert(f(s) == Some((m, va(x))));
        lemma_iter_pre_below(p, f, va, n, m);
    }
}

pub proof fn lemma_sep_by_below<I: Input, O, P: Parser<I, Output = O>, S: Parser<I>, A, X>(
    p: SepBy<P, S>,
    f: spec_fn(Seq<I::Item>) -> Option<(Seq<I::Item>, A)>,
    va: spec_fn(O) -> A,
    g: spec_fn(Seq<I::Item>) -> Option<(Seq<I::Item>, X)>,
    vx: spec_fn(S::Output) -> X,
    n: nat,
)
    requires
        refines(p.parser, f, va),
        refines(p.sep, g, vx),
        progresses(then_fn(g, f)),
        shrinks(f),
        shrinks(g),
        total_below(p.parser, n),
        total_below(p.sep, n),
    ensures
        total_below(p, n),
{
    let q = Sequence { a: p.sep, b: p.parser };
    lemma_seq_refines(q, g, vx, f, va);
    lemma_seq_below(q, g, vx, n);
    assert forall|s: Seq<I::Item>| s.len() < n implies #[trigger] p.parse_pre(s) by {
        assert forall|m: Seq<I::Item>, x: O| #[trigger] p.parser.accepts(s, m, x) implies crate::repeat::sep_tail_pre(p.parser, p.sep, m) by {
            assert(f(s) == Some((m, va(x))));
            lemma_iter_pre_below(q, then_fn(g, f), va, n, m);
        }
    }
}

pub proof fn lemma_bracket_below<I: Input, P: Parser<I>, B: Parser<I>, K: Parser<I>, A, X>(
    p: Bracket<P, B, K>,
    f: spec_fn(Seq<I::Item>) -> Option<(Seq<I::Item>, A)>,
    va: spec_fn(P::Output) -> A,
    g: spec_fn(Seq<I::Item>) -> Option<(Seq<I::Item>, X)>,
    vx: spec_fn(B::Output) -> X,
    n: nat,
)
    requires
        refines(p.brac, g, vx),
        refines(p.parser, f, va),
        progresses(g),
        shrinks(f),
        total(p.brac),
        total(p.ket),
        total_below(p.parser, n),
    ensures
        total_below(p, n + 1),
{
}

pub proof fn lemma_total_below<I: Input, P: Parser<I>>(p: P, n: nat)
    requires
        total(p),
    ensures
        total_below(p, n),
{
}

} // verus!
