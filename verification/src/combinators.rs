//! Combinators that run each of their parts at most once.
use vstd::prelude::*;
use std::marker::PhantomData;
use crate::parser::{Input, ParseErr, ParseResult, Parser};

verus! {

/// What `{:?}` writes for a character that `char_debug_text` does not
/// spell out: a control character or a character beyond ASCII.
pub uninterp spec fn escaped_char_text(c: char) -> Seq<char>;

/// What `{:?}` writes for the character `c`: a printable ASCII character
/// between single quotes, with a backslash before `'` and `\`.
pub open spec fn char_debug_text(c: char) -> Seq<char> {
    if c == '\'' {
        seq!['\'', '\\', '\'', '\'']
    } else if c == '\\' {
        seq!['\'', '\\', '\\', '\'']
    } else if 0x20 <= c as u32 <= 0x7E {
        seq!['\'', c, '\'']
    } else {
        escaped_char_text(c)
    }
}

/// `format!("{:?}", c)` for a `char`: `c`, escaped where it needs it, between
/// single quotes. A printable ASCII character other than `'` and `\` stands
/// as it is (`"` too); `'` and `\` get a backslash before them. Of other
/// characters only the quotes around the escape are stated.
#[verifier::external_body]
fn debug_char(c: char) -> (s: String)
    ensures
        s@ == char_debug_text(c),
        !(0x20 <= c as u32 <= 0x7E) ==> s@ == escaped_char_text(c),
        s@.len() >= 3,
        s@[0] == '\'',
        s@.last() == '\'',
{
    format!("{:?}", c)
}

/// What `{:?}` writes for the unit value: `()`.
fn debug_unit(u: &()) -> (s: String)
    ensures
        s@ == seq!['(', ')'],
{
    let s = String::from_str("()");
    proof {
        reveal_strlit("()");
    }
    s
}

/// Values whose debug text (what `{:?}` writes) the library can state and
/// put into error messages.
pub trait DebugText {
    /// The debug text of this value.
    spec fn debug_view(&self) -> Seq<char>;

    /// Writes the debug text of this value.
    fn debug_string(&self) -> (s: String)
        ensures
            s@ == self.debug_view(),
    ;
}

impl DebugText for char {
    open spec fn debug_view(&self) -> Seq<char> {
        char_debug_text(*self)
    }

    fn debug_string(&self) -> (s: String) {
        debug_char(*self)
    }
}

impl DebugText for () {
    open spec fn debug_view(&self) -> Seq<char> {
        seq!['(', ')']
    }

    fn debug_string(&self) -> (s: String) {
        debug_unit(self)
    }
}

/// `prefix` followed by the debug text of `t`.
pub(crate) fn message_with<T: DebugText>(prefix: &str, t: &T) -> (m: String)
    ensures
        m@ == prefix@ + t.debug_view(),
{
    let d = t.debug_string();
    let mut m = String::from_str(prefix);
    m.append(d.as_str());
    m
}

/// An `Unexpected` error with exactly the message `text`.
pub open spec fn unexpected_text(e: ParseErr, text: Seq<char>) -> bool {
    e matches ParseErr::Unexpected(m) && m@ == text
}

/// Applies the function read by `pf` to the value read after it by `pa`.
pub struct Ap<PF, PA> {
    pub pf: PF,
    pub pa: PA,
}

impl<I: Input, O, A, F: Fn(A) -> O, PA: Parser<I, Output = A>, PF: Parser<I, Output = F>> Parser<
    I,
> for Ap<PF, PA> {
    type Output = O;

    open spec fn parse_pre(&self, s: Seq<I::Item>) -> bool {
        &&& self.pf.parse_pre(s)
        &&& forall|mid: Seq<I::Item>, f: F|
            #[trigger] self.pf.accepts(s, mid, f) ==> {
                &&& self.pa.parse_pre(mid)
                &&& forall|rest: Seq<I::Item>, a: A|
                    #[trigger] self.pa.accepts(mid, rest, a) ==> call_requires(f, (a,))
            }
    }

    open spec fn accepts(&self, s: Seq<I::Item>, rest: Seq<I::Item>, o: O) -> bool {
        exists|mid: Seq<I::Item>, f: F, a: A|
            #[trigger] self.pf.accepts(s, mid, f) && #[trigger] self.pa.accepts(mid, rest, a)
                && call_ensures(f, (a,), o)
    }

    open spec fn rejects(&self, s: Seq<I::Item>, e: ParseErr) -> bool {
        ||| self.pf.rejects(s, e)
        ||| exists|mid: Seq<I::Item>, f: F|
            #[trigger] self.pf.accepts(s, mid, f) && self.pa.rejects(mid, e)
    }

    fn parse(&self, i: I) -> (r: ParseResult<I, O>) {
        match self.pf.parse(i) {
            Err(e) => Err(e),
            Ok((i, f)) => match self.pa.parse(i) {
                Err(e) => Err(e),
                Ok((i, a)) => Ok((i, f(a))),
            },
        }
    }
}

/// Applies `func` to the value that `parser` reads.
pub struct Mapped<P, F> {
    pub parser: P,
    pub func: F,
}

impl<I: Input, O, P: Parser<I>, F: Fn(P::Output) -> O> Parser<I> for Mapped<P, F> {
    type Output = O;

    open spec fn parse_pre(&self, s: Seq<I::Item>) -> bool {
        &&& self.parser.parse_pre(s)
        &&& forall|rest: Seq<I::Item>, a: P::Output|
            #[trigger] self.parser.accepts(s, rest, a) ==> call_requires(self.func, (a,))
    }

    open spec fn accepts(&self, s: Seq<I::Item>, rest: Seq<I::Item>, o: O) -> bool {
        exists|a: P::Output|
            #[trigger] self.parser.accepts(s, rest, a) && call_ensures(self.func, (a,), o)
    }

    open spec fn rejects(&self, s: Seq<I::Item>, e: ParseErr) -> bool {
        self.parser.rejects(s, e)
    }

    fn parse(&self, i: I) -> (r: ParseResult<I, O>) {
        match self.parser.parse(i) {
            Err(e) => Err(e),
            Ok((i, o)) => Ok((i, (self.func)(o))),
        }
    }
}

/// A parser given as a function from input to result.
pub struct Lift<I, F> {
    pub func: F,
    pub phantom: PhantomData<I>,
}

impl<I: Input, O, F: Fn(I) -> ParseResult<I, O>> Parser<I> for Lift<I, F> {
    type Output = O;

    open spec fn parse_pre(&self, s: Seq<I::Item>) -> bool {
        forall|i: I| i.items() == s ==> #[trigger] call_requires(self.func, (i,))
    }

    open spec fn accepts(&self, s: Seq<I::Item>, rest: Seq<I::Item>, o: O) -> bool {
        exists|i: I, ri: I|
            i.items() == s && ri.items() == rest && #[trigger] call_ensures(
                self.func,
                (i,),
                Ok::<(I, O), ParseErr>((ri, o)),
            )
    }

    open spec fn rejects(&self, s: Seq<I::Item>, e: ParseErr) -> bool {
        exists|i: I|
            i.items() == s && #[trigger] call_ensures(
                self.func,
                (i,),
                Err::<(I, O), ParseErr>(e),
            )
    }

    fn parse(&self, i: I) -> (r: ParseResult<I, O>) {
        (self.func)(i)
    }
}

pub fn lift<I: Input, O, F: Fn(I) -> ParseResult<I, O>>(func: F) -> (p: Lift<I, F>)
    ensures
        p.func == func,
{
    Lift { func, phantom: PhantomData }
}

/// Reads nothing and gives the value of `f`.
pub struct Pure<I, F> {
    pub f: F,
    pub phantom: PhantomData<I>,
}

impl<A, F: Fn() -> A, I: Input> Parser<I> for Pure<I, F> {
    type Output = A;

    open spec fn parse_pre(&self, s: Seq<I::Item>) -> bool {
        call_requires(self.f, ())
    }

    open spec fn accepts(&self, s: Seq<I::Item>, rest: Seq<I::Item>, a: A) -> bool {
        rest == s && call_ensures(self.f, (), a)
    }

    open spec fn rejects(&self, s: Seq<I::Item>, e: ParseErr) -> bool {
        false
    }

    fn parse(&self, i: I) -> (r: ParseResult<I, A>) {
        Ok((i, (self.f)()))
    }
}

pub fn pure<I: Input, O, F: Fn() -> O>(f: F) -> (p: Pure<I, F>)
    ensures
        p.f == f,
{
    Pure { f, phantom: PhantomData }
}

/// Reads with `parser` and keeps the value only when `f` accepts it.
pub struct Satisfy<P, F> {
    pub parser: P,
    pub f: F,
}

impl<I: Input, P: Parser<I>, F: Fn(&P::Output) -> bool> Parser<I> for Satisfy<P, F> where
    P::Output: DebugText,
 {
    type Output = P::Output;

    open spec fn parse_pre(&self, s: Seq<I::Item>) -> bool {
        &&& self.parser.parse_pre(s)
        &&& forall|rest: Seq<I::Item>, o: P::Output|
            #[trigger] self.parser.accepts(s, rest, o) ==> call_requires(self.f, (&o,))
    }

    open spec fn accepts(&self, s: Seq<I::Item>, rest: Seq<I::Item>, o: P::Output) -> bool {
        self.parser.accepts(s, rest, o) && call_ensures(self.f, (&o,), true)
    }

    open spec fn rejects(&self, s: Seq<I::Item>, e: ParseErr) -> bool {
        ||| self.parser.rejects(s, e)
        ||| exists|rest: Seq<I::Item>, o: P::Output|
            #[trigger] self.parser.accepts(s, rest, o) && call_ensures(self.f, (&o,), false)
                && unexpected_text(e, "Unexpected input: "@ + o.debug_view())
    }

    fn parse(&self, i: I) -> (r: ParseResult<I, P::Output>) {
        match self.parser.parse(i) {
            Err(e) => Err(e),
            Ok((input, o)) => {
                if (self.f)(&o) {
                    Ok((input, o))
                } else {
                    Err(ParseErr::Unexpected(message_with("Unexpected input: ", &o)))
                }
            },
        }
    }
}

/// How a `Satisfy` fails: as the parser under it, or, where that parser
/// succeeds and the test rejects its value, with an `Unexpected` error.
pub proof fn lemma_satisfy_rejects<I: Input, P: Parser<I>, F: Fn(&P::Output) -> bool>(
    p: Satisfy<P, F>,
    s: Seq<I::Item>,
    e: ParseErr,
)
    where P::Output: DebugText
    requires
        p.rejects(s, e),
    ensures
        p.parser.rejects(s, e) || exists|rest: Seq<I::Item>, o: P::Output|
            #[trigger] p.parser.accepts(s, rest, o) && call_ensures(p.f, (&o,), false)
                && unexpected_text(e, "Unexpected input: "@ + o.debug_view()),
{
}

pub fn satisfy<I: Input, P: Parser<I>, F: Fn(&P::Output) -> bool>(parser: P, f: F) -> (p: Satisfy<
    P,
    F,
>) where P::Output: DebugText
    ensures
        p.parser == parser,
        p.f == f,
{
    Satisfy { parser, f }
}

/// Reads `surround`, then `parser`, then `surround` again, and keeps what
/// `parser` read.
pub struct Surrounded<P, A> {
    pub parser: P,
    pub surround: A,
}

impl<I: Input, P: Parser<I>, A: Parser<I>> Parser<I> for Surrounded<P, A> {
    type Output = P::Output;

    open spec fn parse_pre(&self, s: Seq<I::Item>) -> bool {
        &&& self.surround.parse_pre(s)
        &&& forall|m1: Seq<I::Item>, x: A::Output|
            #[trigger] self.surround.accepts(s, m1, x) ==> {
                &&& self.parser.parse_pre(m1)
                &&& forall|m2: Seq<I::Item>, o: P::Output|
                    #[trigger] self.parser.accepts(m1, m2, o) ==> self.surround.parse_pre(m2)
            }
    }

    open spec fn accepts(&self, s: Seq<I::Item>, rest: Seq<I::Item>, o: P::Output) -> bool {
        exists|m1: Seq<I::Item>, m2: Seq<I::Item>, x: A::Output, y: A::Output|
            #[trigger] self.surround.accepts(s, m1, x) && #[trigger] self.parser.accepts(m1, m2, o)
                && #[trigger] self.surround.accepts(m2, rest, y)
    }

    open spec fn rejects(&self, s: Seq<I::Item>, e: ParseErr) -> bool {
        ||| self.surround.rejects(s, e)
        ||| exists|m1: Seq<I::Item>, x: A::Output|
            #[trigger] self.surround.accepts(s, m1, x) && {
                ||| self.parser.rejects(m1, e)
                ||| exists|m2: Seq<I::Item>, o: P::Output|
                    #[trigger] self.parser.accepts(m1, m2, o) && self.surround.rejects(m2, e)
            }
    }

    fn parse(&self, i: I) -> (r: ParseResult<I, P::Output>) {
        match self.surround.parse(i) {
            Err(e) => Err(e),
            Ok((i, _)) => match self.parser.parse(i) {
                Err(e) => Err(e),
                Ok((i, o)) => match self.surround.parse(i) {
                    Err(e) => Err(e),
                    Ok((i, _)) => Ok((i, o)),
                },
            },
        }
    }
}

/// Reads `brac`, then `parser`, then `ket`, and keeps what `parser` read.
pub struct Bracket<P, B, K> {
    pub parser: P,
    pub brac: B,
    pub ket: K,
}

impl<I: Input, P: Parser<I>, B: Parser<I>, K: Parser<I>> Parser<I> for Bracket<P, B, K> {
    type Output = P::Output;

    open spec fn parse_pre(&self, s: Seq<I::Item>) -> bool {
        &&& self.brac.parse_pre(s)
        &&& forall|m1: Seq<I::Item>, x: B::Output|
            #[trigger] self.brac.accepts(s, m1, x) ==> {
                &&& self.parser.parse_pre(m1)
                &&& forall|m2: Seq<I::Item>, o: P::Output|
                    #[trigger] self.parser.accepts(m1, m2, o) ==> self.ket.parse_pre(m2)
            }
    }

    open spec fn accepts(&self, s: Seq<I::Item>, rest: Seq<I::Item>, o: P::Output) -> bool {
        exists|m1: Seq<I::Item>, m2: Seq<I::Item>, x: B::Output, y: K::Output|
            #[trigger] self.brac.accepts(s, m1, x) && #[trigger] self.parser.accepts(m1, m2, o)
                && #[trigger] self.ket.accepts(m2, rest, y)
    }

    open spec fn rejects(&self, s: Seq<I::Item>, e: ParseErr) -> bool {
        ||| self.brac.rejects(s, e)
        ||| exists|m1: Seq<I::Item>, x: B::Output|
            #[trigger] self.brac.accepts(s, m1, x) && {
                ||| self.parser.rejects(m1, e)
                ||| exists|m2: Seq<I::Item>, o: P::Output|
                    #[trigger] self.parser.accepts(m1, m2, o) && self.ket.rejects(m2, e)
            }
    }

    fn parse(&self, i: I) -> (r: ParseResult<I, P::Output>) {
        match self.brac.parse(i) {
            Err(e) => Err(e),
            Ok((i, _)) => match self.parser.parse(i) {
                Err(e) => Err(e),
                Ok((i, o)) => match self.ket.parse(i) {
                    Err(e) => Err(e),
                    Ok((i, _)) => Ok((i, o)),
                },
            },
        }
    }
}

/// Gives `Some` of what `parser` reads, or `None` without reading when it fails.
pub struct Optional<P> {
    pub parser: P,
}

impl<I: Input, P: Parser<I>> Parser<I> for Optional<P> {
    type Output = Option<P::Output>;

    open spec fn parse_pre(&self, s: Seq<I::Item>) -> bool {
        self.parser.parse_pre(s)
    }

    open spec fn accepts(&self, s: Seq<I::Item>, rest: Seq<I::Item>, o: Option<P::Output>) -> bool {
        match o {
            Some(a) => self.parser.accepts(s, rest, a),
            None => rest == s && exists|e: ParseErr| #[trigger] self.parser.rejects(s, e),
        }
    }

    open spec fn rejects(&self, s: Seq<I::Item>, e: ParseErr) -> bool {
        false
    }

    fn parse(&self, i: I) -> (r: ParseResult<I, Option<P::Output>>) {
        match self.parser.parse(i.duplicate()) {
            Err(_) => Ok((i, None)),
            Ok((i, o)) => Ok((i, Some(o))),
        }
    }
}

/// Reads with `parser` and forgets the value.
pub struct Void<P> {
    pub parser: P,
}

impl<I: Input, P: Parser<I>> Parser<I> for Void<P> {
    type Output = ();

    open spec fn parse_pre(&self, s: Seq<I::Item>) -> bool {
        self.parser.parse_pre(s)
    }

    open spec fn accepts(&self, s: Seq<I::Item>, rest: Seq<I::Item>, o: ()) -> bool {
        exists|a: P::Output| #[trigger] self.parser.accepts(s, rest, a)
    }

    open spec fn rejects(&self, s: Seq<I::Item>, e: ParseErr) -> bool {
        self.parser.rejects(s, e)
    }

    fn parse(&self, i: I) -> (r: ParseResult<I, ()>) {
        match self.parser.parse(i) {
            Err(e) => Err(e),
            Ok((i, _)) => Ok((i, ())),
        }
    }
}

/// Reads with `parser` if it can, and never fails.
pub struct SkipOptional<P> {
    pub parser: P,
}

impl<I: Input, P: Parser<I>> Parser<I> for SkipOptional<P> {
    type Output = ();

    open spec fn parse_pre(&self, s: Seq<I::Item>) -> bool {
        self.parser.parse_pre(s)
    }

    open spec fn accepts(&self, s: Seq<I::Item>, rest: Seq<I::Item>, o: ()) -> bool {
        ||| exists|a: P::Output| #[trigger] self.parser.accepts(s, rest, a)
        ||| rest == s && exists|e: ParseErr| #[trigger] self.parser.rejects(s, e)
    }

    open spec fn rejects(&self, s: Seq<I::Item>, e: ParseErr) -> bool {
        false
    }

    fn parse(&self, i: I) -> (r: ParseResult<I, ()>) {
        match self.parser.parse(i.duplicate()) {
            Err(_) => Ok((i, ())),
            Ok((i, _)) => Ok((i, ())),
        }
    }
}

/// Reads with `parser`, then succeeds only when `follow` fails on what is left;
/// `follow` reads nothing in either case.
pub struct NotFollowedBy<P, Q> {
    pub parser: P,
    pub follow: Q,
}

impl<I: Input, O, P: Parser<I, Output = O>, Q: Parser<I>> Parser<I> for NotFollowedBy<P, Q> where
    Q::Output: DebugText,
 {
    type Output = P::Output;

    open spec fn parse_pre(&self, s: Seq<I::Item>) -> bool {
        &&& self.parser.parse_pre(s)
        &&& forall|m: Seq<I::Item>, o: O| #[trigger] self.parser.accepts(s, m, o) ==> self.follow.parse_pre(m)
    }

    open spec fn accepts(&self, s: Seq<I::Item>, rest: Seq<I::Item>, o: O) -> bool {
        self.parser.accepts(s, rest, o) && exists|e: ParseErr| #[trigger] self.follow.rejects(rest, e)
    }

    open spec fn rejects(&self, s: Seq<I::Item>, e: ParseErr) -> bool {
        ||| self.parser.rejects(s, e)
        ||| exists|m: Seq<I::Item>, o: O, m2: Seq<I::Item>, x: Q::Output|
            #[trigger] self.parser.accepts(s, m, o) && #[trigger] self.follow.accepts(m, m2, x)
                && unexpected_text(e, "Unexpected: "@ + x.debug_view())
    }

    fn parse(&self, i: I) -> (r: ParseResult<I, O>) {
        match self.parser.parse(i) {
            Err(e) => Err(e),
            Ok((i, o)) => match self.follow.parse(i.duplicate()) {
                Err(_) => Ok((i, o)),
                Ok((_, e)) => Err(ParseErr::Unexpected(message_with("Unexpected: ", &e))),
            },
        }
    }
}

/// Always fails with `message`.
pub struct Unexpected<I, O> {
    pub message: String,
    pub phantom: PhantomData<(I, O)>,
}

impl<I: Input, O> Parser<I> for Unexpected<I, O> {
    type Output = O;

    open spec fn parse_pre(&self, s: Seq<I::Item>) -> bool {
        true
    }

    open spec fn accepts(&self, s: Seq<I::Item>, rest: Seq<I::Item>, o: O) -> bool {
        false
    }

    open spec fn rejects(&self, s: Seq<I::Item>, e: ParseErr) -> bool {
        e matches ParseErr::Unexpected(m) && m@ == self.message@
    }

    fn parse(&self, _i: I) -> (r: ParseResult<I, O>) {
        Err(ParseErr::Unexpected(self.message.clone()))
    }
}

pub fn unexpected<I: Input, O>(message: String) -> (p: Unexpected<I, O>)
    ensures
        p.message == message,
{
    Unexpected { message, phantom: PhantomData }
}

/// Reads with `a`, then with `b`, and keeps what `b` read.
pub struct Sequence<P, Q> {
    pub a: P,
    pub b: Q,
}

impl<I: Input, P: Parser<I>, Q: Parser<I>> Parser<I> for Sequence<P, Q> {
    type Output = Q::Output;

    open spec fn parse_pre(&self, s: Seq<I::Item>) -> bool {
        &&& self.a.parse_pre(s)
        &&& forall|m: Seq<I::Item>, x: P::Output| #[trigger] self.a.accepts(s, m, x) ==> self.b.parse_pre(m)
    }

    open spec fn accepts(&self, s: Seq<I::Item>, rest: Seq<I::Item>, o: Q::Output) -> bool {
        exists|m: Seq<I::Item>, x: P::Output|
            #[trigger] self.a.accepts(s, m, x) && #[trigger] self.b.accepts(m, rest, o)
    }

    open spec fn rejects(&self, s: Seq<I::Item>, e: ParseErr) -> bool {
        ||| self.a.rejects(s, e)
        ||| exists|m: Seq<I::Item>, x: P::Output| #[trigger] self.a.accepts(s, m, x) && self.b.rejects(m, e)
    }

    fn parse(&self, i: I) -> (r: ParseResult<I, Q::Output>) {
        match self.a.parse(i) {
            Err(e) => Err(e),
            Ok((i, _)) => self.b.parse(i),
        }
    }
}

/// Reads with `f`, then with `g`, and keeps both values.
pub struct And<F, G> {
    pub f: F,
    pub g: G,
}

impl<I: Input, F: Parser<I>, G: Parser<I>> Parser<I> for And<F, G> {
    type Output = (F::Output, G::Output);

    open spec fn parse_pre(&self, s: Seq<I::Item>) -> bool {
        &&& self.f.parse_pre(s)
        &&& forall|m: Seq<I::Item>, x: F::Output| #[trigger] self.f.accepts(s, m, x) ==> self.g.parse_pre(m)
    }

    open spec fn accepts(&self, s: Seq<I::Item>, rest: Seq<I::Item>, o: (F::Output, G::Output)) -> bool {
        exists|m: Seq<I::Item>| #[trigger] self.f.accepts(s, m, o.0) && self.g.accepts(m, rest, o.1)
    }

    open spec fn rejects(&self, s: Seq<I::Item>, e: ParseErr) -> bool {
        ||| self.f.rejects(s, e)
        ||| exists|m: Seq<I::Item>, x: F::Output| #[trigger] self.f.accepts(s, m, x) && self.g.rejects(m, e)
    }

    fn parse(&self, i: I) -> (r: ParseResult<I, (F::Output, G::Output)>) {
        let ghost s = i.items();
        match self.f.parse(i) {
            Err(e) => Err(e),
            Ok((i, a)) => {
                let ghost m = i.items();
                match self.g.parse(i) {
                    Err(e) => Err(e),
                    Ok((i, b)) => {
                        let o = (a, b);
                        assert(self.f.accepts(s, m, o.0));
                        Ok((i, o))
                    },
                }
            },
        }
    }
}

/// Reads with `parser`, then with the parser that `f` makes from its value.
pub struct AndThen<P, F> {
    pub parser: P,
    pub f: F,
}

impl<I: Input, A, B, F: Fn(A) -> Q, P: Parser<I, Output = A>, Q: Parser<I, Output = B>> Parser<I> for AndThen<P, F> {
    type Output = B;

    open spec fn parse_pre(&self, s: Seq<I::Item>) -> bool {
        &&& self.parser.parse_pre(s)
        &&& forall|m: Seq<I::Item>, a: A|
            #[trigger] self.parser.accepts(s, m, a) ==> {
                &&& call_requires(self.f, (a,))
                &&& forall|q: Q| #[trigger] call_ensures(self.f, (a,), q) ==> q.parse_pre(m)
            }
    }

    open spec fn accepts(&self, s: Seq<I::Item>, rest: Seq<I::Item>, o: B) -> bool {
        exists|m: Seq<I::Item>, a: A, q: Q|
            #[trigger] self.parser.accepts(s, m, a) && #[trigger] call_ensures(self.f, (a,), q)
                && q.accepts(m, rest, o)
    }

    open spec fn rejects(&self, s: Seq<I::Item>, e: ParseErr) -> bool {
        ||| self.parser.rejects(s, e)
        ||| exists|m: Seq<I::Item>, a: A, q: Q|
            #[trigger] self.parser.accepts(s, m, a) && #[trigger] call_ensures(self.f, (a,), q)
                && q.rejects(m, e)
    }

    fn parse(&self, i: I) -> (r: ParseResult<I, B>) {
        match self.parser.parse(i) {
            Err(e) => Err(e),
            Ok((i, a)) => {
                let q = (self.f)(a);
                match q.parse(i) {
                    Err(e) => Err(e),
                    Ok((i, b)) => Ok((i, b)),
                }
            },
        }
    }
}

/// Tries `f`; where it fails, tries `g` on the same input.
pub struct Or<F, G> {
    pub f: F,
    pub g: G,
}

impl<I: Input, O, F: Parser<I, Output = O>, G: Parser<I, Output = O>> Parser<I> for Or<F, G> {
    type Output = O;

    open spec fn parse_pre(&self, s: Seq<I::Item>) -> bool {
        &&& self.f.parse_pre(s)
        &&& (exists|e: ParseErr| #[trigger] self.f.rejects(s, e)) ==> self.g.parse_pre(s)
    }

    open spec fn accepts(&self, s: Seq<I::Item>, rest: Seq<I::Item>, o: O) -> bool {
        ||| self.f.accepts(s, rest, o)
        ||| (exists|e: ParseErr| #[trigger] self.f.rejects(s, e)) && self.g.accepts(s, rest, o)
    }

    open spec fn rejects(&self, s: Seq<I::Item>, e: ParseErr) -> bool {
        (exists|e1: ParseErr| #[trigger] self.f.rejects(s, e1)) && self.g.rejects(s, e)
    }

    fn parse(&self, i: I) -> (r: ParseResult<I, O>) {
        match self.f.parse(i.duplicate()) {
            Ok(r) => Ok(r),
            Err(_) => self.g.parse(i),
        }
    }
}

/// Reads with `pa`, then `pb`, and combines the two values with `f`.
pub struct LiftA2<F, PA, PB> {
    pub f: F,
    pub pa: PA,
    pub pb: PB,
}

impl<A, B, I: Input, O, F: Fn(A, B) -> O, PA: Parser<I, Output = A>, PB: Parser<I, Output = B>> Parser<I> for LiftA2<F, PA, PB> {
    type Output = O;

    open spec fn parse_pre(&self, s: Seq<I::Item>) -> bool {
        &&& self.pa.parse_pre(s)
        &&& forall|m: Seq<I::Item>, a: A|
            #[trigger] self.pa.accepts(s, m, a) ==> {
                &&& self.pb.parse_pre(m)
                &&& forall|rest: Seq<I::Item>, b: B|
                    #[trigger] self.pb.accepts(m, rest, b) ==> call_requires(self.f, (a, b))
            }
    }

    open spec fn accepts(&self, s: Seq<I::Item>, rest: Seq<I::Item>, o: O) -> bool {
        exists|m: Seq<I::Item>, a: A, b: B|
            #[trigger] self.pa.accepts(s, m, a) && #[trigger] self.pb.accepts(m, rest, b)
                && call_ensures(self.f, (a, b), o)
    }

    open spec fn rejects(&self, s: Seq<I::Item>, e: ParseErr) -> bool {
        ||| self.pa.rejects(s, e)
        ||| exists|m: Seq<I::Item>, a: A| #[trigger] self.pa.accepts(s, m, a) && self.pb.rejects(m, e)
    }

    fn parse(&self, i: I) -> (r: ParseResult<I, O>) {
        match self.pa.parse(i) {
            Err(e) => Err(e),
            Ok((i, a)) => match self.pb.parse(i) {
                Err(e) => Err(e),
                Ok((i, b)) => Ok((i, (self.f)(a, b))),
            },
        }
    }
}

pub fn lift_a_2<A, B, I: Input, O, F: Fn(A, B) -> O, PA: Parser<I, Output = A>, PB: Parser<I, Output = B>>(
    f: F,
    pa: PA,
    pb: PB,
) -> (p: LiftA2<F, PA, PB>)
    ensures
        p.f == f,
        p.pa == pa,
        p.pb == pb,
{
    LiftA2 { f, pa, pb }
}

pub fn id<A>(a: A) -> (r: A)
    ensures
        r == a,
{
    a
}

impl<'a, I: Input, P: Parser<I>> Parser<I> for &'a P {
    type Output = P::Output;

    open spec fn parse_pre(&self, s: Seq<I::Item>) -> bool {
        (**self).parse_pre(s)
    }

    open spec fn accepts(&self, s: Seq<I::Item>, rest: Seq<I::Item>, o: P::Output) -> bool {
        (**self).accepts(s, rest, o)
    }

    open spec fn rejects(&self, s: Seq<I::Item>, e: ParseErr) -> bool {
        (**self).rejects(s, e)
    }

    fn parse(&self, input: I) -> (r: ParseResult<I, P::Output>) {
        (**self).parse(input)
    }
}

} // verus!
