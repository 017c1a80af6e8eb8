//! The core of the combinator library: the error type, the input abstraction,
//! the `Parser` trait and the parsers that read single characters.
//!
//! Every parser states its behaviour over the items `s` of the input it is
//! given: `accepts(s, rest, o)` says that it may succeed leaving `rest` and
//! giving `o`, `rejects(s, e)` that it may fail with `e`, and `parse_pre(s)`
//! that running it on `s` terminates without a panic. Each executable `parse`
//! produces an outcome that these relations allow.
use vstd::prelude::*;
use std::marker::PhantomData;
use crate::combinators::{
    And, AndThen, Ap, Bracket, Mapped, NotFollowedBy, Optional, Or, Satisfy, Sequence,
    SkipOptional, Surrounded, Void,
};
use crate::repeat::{
    Count, EndBy, EndBy1, Many, Many1, ManyTill, SepBy, SepBy1, SepEndBy, SepEndBy1, SkipMany,
    SkipSome,
};

verus! {

/// Why a parse failed.
#[derive(Clone, Debug)]
pub enum ParseErr {
    EOF(),
    Unexpected(String),
    Expected(char),
}

/// The text `to_string` gives for an error.
pub open spec fn err_text(e: ParseErr) -> Seq<char> {
    match e {
        ParseErr::EOF() => "End Of File"@,
        ParseErr::Unexpected(msg) => "Unexpected: "@ + msg@,
        ParseErr::Expected(c) => "Expected to see char: "@.push(c),
    }
}

/// The message of the exception that an error becomes.
pub open spec fn exception_text(e: ParseErr) -> Seq<char> {
    match e {
        ParseErr::EOF() => "EOF"@,
        ParseErr::Unexpected(msg) => "Unexpected: "@ + msg@,
        ParseErr::Expected(c) => "Expected: '"@.push(c).push('\''),
    }
}

impl ParseErr {
    /// The message of the exception that this error becomes.
    pub fn exception_message(&self) -> (s: String)
        ensures
            s@ == exception_text(*self),
    {
        match self {
            ParseErr::EOF() => String::from_str("EOF"),
            ParseErr::Unexpected(msg) => {
                let mut s = String::from_str("Unexpected: ");
                s.append(msg.as_str());
                s
            },
            ParseErr::Expected(c) => {
                let mut s = String::from_str("Expected: '");
                s.push(*c);
                s.push('\'');
                s
            },
        }
    }

    pub fn to_string(&self) -> (s: String)
        ensures
            s@ == err_text(*self),
    {
        match self {
            ParseErr::EOF() => String::from_str("End Of File"),
            ParseErr::Unexpected(msg) => {
                let mut s = String::from_str("Unexpected: ");
                s.append(msg.as_str());
                s
            },
            ParseErr::Expected(c) => {
                let mut s = String::from_str("Expected to see char: ");
                s.push(*c);
                s
            },
        }
    }
}

/// A sequence of items that parsers read from the front.
pub trait Input: Sized {
    type Item;

    /// The items not yet read.
    spec fn items(&self) -> Seq<Self::Item>;

    /// A second handle on the same items, for parsers that try and backtrack.
    fn duplicate(&self) -> (r: Self)
        ensures
            r.items() == self.items(),
    ;

    /// Splits off the first item, or gives `None` when nothing is left.
    fn uncons(&self) -> (r: Option<(Self::Item, Self)>)
        ensures
            match r {
                None => self.items().len() == 0,
                Some((c, rest)) => {
                    &&& self.items().len() > 0
                    &&& c == self.items()[0]
                    &&& rest.items() == self.items().drop_first()
                },
            },
    ;
}

impl<'s> Input for &'s [char] {
    type Item = char;

    open spec fn items(&self) -> Seq<char> {
        self@
    }

    fn duplicate(&self) -> (r: Self) {
        *self
    }

    fn uncons(&self) -> (r: Option<(char, Self)>) {
        if self.len() == 0 {
            None
        } else {
            let rest = vstd::slice::slice_subrange(*self, 1, self.len());
            assert(rest@ =~= self@.drop_first());
            Some((self[0], rest))
        }
    }
}

impl<'s> Input for &'s str {
    type Item = char;

    open spec fn items(&self) -> Seq<char> {
        self@
    }

    fn duplicate(&self) -> (r: Self) {
        *self
    }

    fn uncons(&self) -> (r: Option<(char, Self)>) {
        let n = self.unicode_len();
        if n == 0 {
            None
        } else {
            let c = self.get_char(0);
            let rest = self.substring_char(1, n);
            assert(rest@ =~= self@.drop_first());
            Some((c, rest))
        }
    }
}

/// What a parser gives back: the input left over and the value read, or an error.
pub type ParseResult<I, O> = Result<(I, O), ParseErr>;

/// A parser reading from inputs of type `I`.
pub trait Parser<I: Input>: Sized {
    type Output;

    /// Running `parse` on input with items `s` terminates without a panic.
    spec fn parse_pre(&self, s: Seq<I::Item>) -> bool;

    /// Parsing items `s` may succeed, leaving the items `rest` and giving `o`.
    spec fn accepts(&self, s: Seq<I::Item>, rest: Seq<I::Item>, o: Self::Output) -> bool;

    /// Parsing items `s` may fail with the error `e`.
    spec fn rejects(&self, s: Seq<I::Item>, e: ParseErr) -> bool;

    fn parse(&self, input: I) -> (r: ParseResult<I, Self::Output>)
        requires
            self.parse_pre(input.items()),
        ensures
            match r {
                Ok((rest, o)) => self.accepts(input.items(), rest.items(), o),
                Err(e) => self.rejects(input.items(), e),
            },
    ;

    fn map<F: Fn(Self::Output) -> B, B>(self, f: F) -> (r: Mapped<Self, F>)
        ensures
            r.parser == self,
            r.func == f,
    {
        Mapped { parser: self, func: f }
    }

    fn and<G>(self, g: G) -> (r: And<Self, G>)
        ensures
            r.f == self,
            r.g == g,
    {
        And { f: self, g: g }
    }

    fn and_then<Q, F: Fn(Self::Output) -> Q>(self, f: F) -> (r: AndThen<
        Self,
        F,
    >)
        ensures
            r.parser == self,
            r.f == f,
    {
        AndThen { parser: self, f: f }
    }

    fn ap<PA>(self, pa: PA) -> (r: Ap<Self, PA>)
        ensures
            r.pf == self,
            r.pa == pa,
    {
        Ap { pf: self, pa: pa }
    }

    fn or<G>(self, g: G) -> (r: Or<Self, G>)
        ensures
            r.f == self,
            r.g == g,
    {
        Or { f: self, g: g }
    }

    fn satisfy<F: Fn(&Self::Output) -> bool>(self, f: F) -> (r: Satisfy<Self, F>)
        ensures
            r.parser == self,
            r.f == f,
    {
        Satisfy { parser: self, f: f }
    }

    fn many(self) -> (r: Many<Self>)
        ensures
            r.parser == self,
    {
        Many { parser: self }
    }

    fn some(self) -> (r: Many1<Self>)
        ensures
            r.parser == self,
    {
        Many1 { parser: self }
    }

    fn surround<S>(self, surround: S) -> (r: Surrounded<Self, S>)
        ensures
            r.parser == self,
            r.surround == surround,
    {
        Surrounded { parser: self, surround }
    }

    fn bracket<B, K>(self, brac: B, ket: K) -> (r: Bracket<Self, B, K>)
        ensures
            r.parser == self,
            r.brac == brac,
            r.ket == ket,
    {
        Bracket { parser: self, brac, ket }
    }

    fn optional(self) -> (r: Optional<Self>)
        ensures
            r.parser == self,
    {
        Optional { parser: self }
    }

    fn skip_optional(self) -> (r: SkipOptional<Self>)
        ensures
            r.parser == self,
    {
        SkipOptional { parser: self }
    }

    fn skip_many(self) -> (r: SkipMany<Self>)
        ensures
            r.parser == self,
    {
        SkipMany { parser: self }
    }

    fn skip_some(self) -> (r: SkipSome<Self>)
        ensures
            r.parser == self,
    {
        SkipSome { parser: self }
    }

    fn seq<Q>(self, b: Q) -> (r: Sequence<Self, Q>)
        ensures
            r.a == self,
            r.b == b,
    {
        Sequence { a: self, b }
    }

    fn sep_by<S>(self, sep: S) -> (r: SepBy<Self, S>)
        ensures
            r.parser == self,
            r.sep == sep,
    {
        SepBy { parser: self, sep }
    }

    fn sep_by_1<S>(self, sep: S) -> (r: SepBy1<Self, S>)
        ensures
            r.parser == self,
            r.sep == sep,
    {
        SepBy1 { parser: self, sep }
    }

    fn sep_end_by<S>(self, sep: S) -> (r: SepEndBy<Self, S>)
        ensures
            r.parser == self,
            r.sep == sep,
    {
        SepEndBy { parser: self, sep }
    }

    fn sep_end_by_1<S>(self, sep: S) -> (r: SepEndBy1<Self, S>)
        ensures
            r.parser == self,
            r.sep == sep,
    {
        SepEndBy1 { parser: self, sep }
    }

    fn end_by<S>(self, sep: S) -> (r: EndBy<Self, S>)
        ensures
            r.parser == self,
            r.sep == sep,
    {
        EndBy { parser: self, sep }
    }

    fn end_by_1<S>(self, sep: S) -> (r: EndBy1<Self, S>)
        ensures
            r.parser == self,
            r.sep == sep,
    {
        EndBy1 { parser: self, sep }
    }

    fn count(self, n: u32) -> (r: Count<Self>)
        ensures
            r.parser == self,
            r.count == n,
    {
        Count { parser: self, count: n }
    }

    fn many_till<Q>(self, end: Q) -> (r: ManyTill<Self, Q>)
        ensures
            r.parser == self,
            r.end == end,
    {
        ManyTill { parser: self, end }
    }

    fn not_followed_by<Q>(self, follow: Q) -> (r: NotFollowedBy<Self, Q>)
        ensures
            r.parser == self,
            r.follow == follow,
    {
        NotFollowedBy { parser: self, follow }
    }

    fn void(self) -> (r: Void<Self>)
        ensures
            r.parser == self,
    {
        Void { parser: self }
    }
}

/// Reads any one character.
pub struct AnyChar<I>(pub PhantomData<I>);

impl<I: Input<Item = char>> Parser<I> for AnyChar<I> {
    type Output = char;

    open spec fn parse_pre(&self, s: Seq<char>) -> bool {
        true
    }

    open spec fn accepts(&self, s: Seq<char>, rest: Seq<char>, o: char) -> bool {
        s.len() > 0 && rest == s.drop_first() && o == s[0]
    }

    open spec fn rejects(&self, s: Seq<char>, e: ParseErr) -> bool {
        s.len() == 0 && e == ParseErr::EOF()
    }

    fn parse(&self, input: I) -> (r: ParseResult<I, char>) {
        match input.uncons() {
            None => Err(ParseErr::EOF()),
            Some((c, rest)) => Ok((rest, c)),
        }
    }
}

pub fn any_char<I: Input<Item = char>>() -> (p: AnyChar<I>) {
    AnyChar(PhantomData)
}

} // verus!
