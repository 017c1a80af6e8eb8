//! Combinators that run a parser over and over.
use vstd::prelude::*;
use crate::combinators::{And, Sequence};
use crate::parser::{Input, ParseErr, ParseResult, Parser};

verus! {

/// Running `p` `xs.len()` times from `s` may read the values `xs` in order and
/// leave `rest`.
pub open spec fn chain<I: Input, P: Parser<I>>(
    p: P,
    s: Seq<I::Item>,
    xs: Seq<P::Output>,
    rest: Seq<I::Item>,
) -> bool
    decreases xs.len(),
{
    if xs.len() == 0 {
        rest == s
    } else {
        exists|m: Seq<I::Item>| #[trigger] p.accepts(s, m, xs[0]) && chain(p, m, xs.drop_first(), rest)
    }
}

/// Running `p` again and again from `s`, as long as it succeeds, terminates:
/// each run that succeeds reads at least one item.
pub open spec fn iter_pre<I: Input, P: Parser<I>>(p: P, s: Seq<I::Item>) -> bool
    decreases s.len(),
{
    &&& p.parse_pre(s)
    &&& forall|m: Seq<I::Item>, x: P::Output|
        #[trigger] p.accepts(s, m, x) ==> m.len() < s.len() && iter_pre(p, m)
}

/// A parser that can run on any input and reads at least one item wherever
/// it succeeds can be run again and again from any input.
pub proof fn lemma_shrinking_iter_pre<I: Input, P: Parser<I>>(p: P, s: Seq<I::Item>)
    requires
        forall|t: Seq<I::Item>| #[trigger] p.parse_pre(t),
        forall|t: Seq<I::Item>, m: Seq<I::Item>, x: P::Output| #[trigger] p.accepts(t, m, x) ==> m.len() < t.len(),
    ensures
        iter_pre(p, s),
    decreases s.len(),
{
    assert(p.parse_pre(s));
    assert forall|m: Seq<I::Item>, x: P::Output| #[trigger] p.accepts(s, m, x) implies m.len() < s.len() && iter_pre(p, m) by {
        lemma_shrinking_iter_pre(p, m);
    }
}

/// One more run of `p` extends a chain.
pub proof fn lemma_chain_push<I: Input, P: Parser<I>>(
    p: P,
    s: Seq<I::Item>,
    xs: Seq<P::Output>,
    m: Seq<I::Item>,
    x: P::Output,
    m2: Seq<I::Item>,
)
    requires
        chain(p, s, xs, m),
        p.accepts(m, m2, x),
    ensures
        chain(p, s, xs.push(x), m2),
    decreases xs.len(),
{
    if xs.len() == 0 {
        assert(xs.push(x).drop_first() =~= Seq::<P::Output>::empty());
        assert(chain(p, m2, Seq::<P::Output>::empty(), m2));
        assert(xs.push(x)[0] == x);
    } else {
        let m1 = choose|m1: Seq<I::Item>| #[trigger] p.accepts(s, m1, xs[0]) && chain(p, m1, xs.drop_first(), m);
        lemma_chain_push(p, m1, xs.drop_first(), m, x, m2);
        assert(xs.push(x).drop_first() =~= xs.drop_first().push(x));
        assert(xs.push(x)[0] == xs[0]);
    }
}

/// Reads with `parser` as often as it succeeds, at least once.
pub struct Many1<P> {
    pub parser: P,
}

impl<I: Input, O, P: Parser<I, Output = O>> Parser<I> for Many1<P> {
    type Output = Vec<O>;

    open spec fn parse_pre(&self, s: Seq<I::Item>) -> bool {
        iter_pre(self.parser, s)
    }

    open spec fn accepts(&self, s: Seq<I::Item>, rest: Seq<I::Item>, v: Vec<O>) -> bool {
        &&& v@.len() > 0
        &&& chain(self.parser, s, v@, rest)
        &&& exists|e: ParseErr| #[trigger] self.parser.rejects(rest, e)
    }

    open spec fn rejects(&self, s: Seq<I::Item>, e: ParseErr) -> bool {
        self.parser.rejects(s, e)
    }

    fn parse(&self, input: I) -> (r: ParseResult<I, Vec<O>>) {
        let ghost s = input.items();
        let mut l = Vec::new();
        let (mut i, o) = match self.parser.parse(input) {
            Err(e) => return Err(e),
            Ok(r) => r,
        };
        proof {
            assert(chain(self.parser, s, Seq::<O>::empty(), s));
            lemma_chain_push(self.parser, s, Seq::<O>::empty(), s, o, i.items());
            assert(Seq::<O>::empty().push(o) =~= seq![o]);
        }
        l.push(o);
        loop
            invariant
                s == input.items(),
                l@.len() > 0,
                chain(self.parser, s, l@, i.items()),
                iter_pre(self.parser, i.items()),
            decreases i.items().len(),
        {
            let ghost cur = i.items();
            match self.parser.parse(i.duplicate()) {
                Err(_) => return Ok((i, l)),
                Ok((ii, o)) => {
                    proof {
                        lemma_chain_push(self.parser, s, l@, cur, o, ii.items());
                    }
                    i = ii;
                    l.push(o);
                },
            }
        }
    }
}

/// Reads with `parser` as often as it succeeds, possibly never.
pub struct Many<P> {
    pub parser: P,
}

impl<I: Input, O, P: Parser<I, Output = O>> Parser<I> for Many<P> {
    type Output = Vec<O>;

    open spec fn parse_pre(&self, s: Seq<I::Item>) -> bool {
        iter_pre(self.parser, s)
    }

    open spec fn accepts(&self, s: Seq<I::Item>, rest: Seq<I::Item>, v: Vec<O>) -> bool {
        &&& chain(self.parser, s, v@, rest)
        &&& exists|e: ParseErr| #[trigger] self.parser.rejects(rest, e)
    }

    open spec fn rejects(&self, s: Seq<I::Item>, e: ParseErr) -> bool {
        false
    }

    fn parse(&self, input: I) -> (r: ParseResult<I, Vec<O>>) {
        let ghost s = input.items();
        let mut l = Vec::new();
        let mut i = input;
        assert(chain(self.parser, s, l@, s));
        loop
            invariant
                s == input.items(),
                chain(self.parser, s, l@, i.items()),
                iter_pre(self.parser, i.items()),
            decreases i.items().len(),
        {
            let ghost cur = i.items();
            match self.parser.parse(i.duplicate()) {
                Err(_) => return Ok((i, l)),
                Ok((ii, o)) => {
                    proof {
                        lemma_chain_push(self.parser, s, l@, cur, o, ii.items());
                    }
                    l.push(o);
                    i = ii;
                },
            }
        }
    }
}

/// Reads with `parser` as often as it succeeds, possibly never, and forgets
/// the values.
pub struct SkipMany<P> {
    pub parser: P,
}

impl<I: Input, P: Parser<I>> Parser<I> for SkipMany<P> {
    type Output = ();

    open spec fn parse_pre(&self, s: Seq<I::Item>) -> bool {
        iter_pre(self.parser, s)
    }

    open spec fn accepts(&self, s: Seq<I::Item>, rest: Seq<I::Item>, o: ()) -> bool {
        &&& exists|xs: Seq<P::Output>| #[trigger] chain(self.parser, s, xs, rest)
        &&& exists|e: ParseErr| #[trigger] self.parser.rejects(rest, e)
    }

    open spec fn rejects(&self, s: Seq<I::Item>, e: ParseErr) -> bool {
        false
    }

    fn parse(&self, input: I) -> (r: ParseResult<I, ()>) {
        let ghost s = input.items();
        let ghost mut xs: Seq<P::Output> = Seq::empty();
        let mut i = input;
        loop
            invariant
                s == input.items(),
                chain(self.parser, s, xs, i.items()),
                iter_pre(self.parser, i.items()),
            decreases i.items().len(),
        {
            let ghost cur = i.items();
            match self.parser.parse(i.duplicate()) {
                Err(_) => return Ok((i, ())),
                Ok((ii, o)) => {
                    proof {
                        lemma_chain_push(self.parser, s, xs, cur, o, ii.items());
                        xs = xs.push(o);
                    }
                    i = ii;
                },
            }
        }
    }
}

/// Reads with `parser` as often as it succeeds, at least once, and forgets the
/// values.
pub struct SkipSome<P> {
    pub parser: P,
}

impl<I: Input, P: Parser<I>> Parser<I> for SkipSome<P> {
    type Output = ();

    open spec fn parse_pre(&self, s: Seq<I::Item>) -> bool {
        iter_pre(self.parser, s)
    }

    open spec fn accepts(&self, s: Seq<I::Item>, rest: Seq<I::Item>, o: ()) -> bool {
        &&& exists|xs: Seq<P::Output>| xs.len() > 0 && #[trigger] chain(self.parser, s, xs, rest)
        &&& exists|e: ParseErr| #[trigger] self.parser.rejects(rest, e)
    }

    open spec fn rejects(&self, s: Seq<I::Item>, e: ParseErr) -> bool {
        self.parser.rejects(s, e)
    }

    fn parse(&self, input: I) -> (r: ParseResult<I, ()>) {
        let ghost s = input.items();
        let (mut i, o) = match self.parser.parse(input) {
            Err(e) => return Err(e),
            Ok(r) => r,
        };
        let ghost mut xs: Seq<P::Output> = seq![o];
        proof {
            assert(chain(self.parser, s, Seq::<P::Output>::empty(), s));
            lemma_chain_push(self.parser, s, Seq::<P::Output>::empty(), s, o, i.items());
            assert(Seq::<P::Output>::empty().push(o) =~= xs);
        }
        loop
            invariant
                s == input.items(),
                xs.len() > 0,
                chain(self.parser, s, xs, i.items()),
                iter_pre(self.parser, i.items()),
            decreases i.items().len(),
        {
            let ghost cur = i.items();
            match self.parser.parse(i.duplicate()) {
                Err(_) => return Ok((i, ())),
                Ok((ii, o)) => {
                    proof {
                        lemma_chain_push(self.parser, s, xs, cur, o, ii.items());
                        xs = xs.push(o);
                    }
                    i = ii;
                },
            }
        }
    }
}

/// Running `p` `n` times in a row from `s` terminates.
pub open spec fn count_pre<I: Input, P: Parser<I>>(p: P, s: Seq<I::Item>, n: nat) -> bool
    decreases n,
{
    n > 0 ==> {
        &&& p.parse_pre(s)
        &&& forall|m: Seq<I::Item>, x: P::Output|
            #[trigger] p.accepts(s, m, x) ==> count_pre(p, m, (n - 1) as nat)
    }
}

/// Reads with `parser` exactly `count` times.
pub struct Count<P> {
    pub parser: P,
    pub count: u32,
}

impl<I: Input, O, P: Parser<I, Output = O>> Parser<I> for Count<P> {
    type Output = Vec<O>;

    open spec fn parse_pre(&self, s: Seq<I::Item>) -> bool {
        count_pre(self.parser, s, self.count as nat)
    }

    open spec fn accepts(&self, s: Seq<I::Item>, rest: Seq<I::Item>, v: Vec<O>) -> bool {
        v@.len() == self.count && chain(self.parser, s, v@, rest)
    }

    open spec fn rejects(&self, s: Seq<I::Item>, e: ParseErr) -> bool {
        exists|xs: Seq<O>, m: Seq<I::Item>|
            xs.len() < self.count && #[trigger] chain(self.parser, s, xs, m) && self.parser.rejects(
                m,
                e,
            )
    }

    fn parse(&self, input: I) -> (r: ParseResult<I, Vec<O>>) {
        let ghost s = input.items();
        let mut l = Vec::new();
        let mut i = input;
        let mut k: u32 = 0;
        assert(chain(self.parser, s, l@, s));
        while k < self.count
            invariant
                s == input.items(),
                k <= self.count,
                l@.len() == k,
                chain(self.parser, s, l@, i.items()),
                count_pre(self.parser, i.items(), (self.count - k) as nat),
            decreases self.count - k,
        {
            let ghost cur = i.items();
            match self.parser.parse(i) {
                Err(e) => {
                    assert(chain(self.parser, s, l@, cur) && self.parser.rejects(cur, e));
                    return Err(e);
                },
                Ok((ii, o)) => {
                    proof {
                        lemma_chain_push(self.parser, s, l@, cur, o, ii.items());
                    }
                    i = ii;
                    l.push(o);
                },
            }
            k = k + 1;
        }
        Ok((i, l))
    }
}

/// Running `p` `xs.len()` times from `s`, each time after `end` has failed at
/// the current position, may read `xs` and leave `rest`.
pub open spec fn till_chain<I: Input, P: Parser<I>, Q: Parser<I>>(
    p: P,
    end: Q,
    s: Seq<I::Item>,
    xs: Seq<P::Output>,
    rest: Seq<I::Item>,
) -> bool
    decreases xs.len(),
{
    if xs.len() == 0 {
        rest == s
    } else {
        &&& exists|e: ParseErr| #[trigger] end.rejects(s, e)
        &&& exists|m: Seq<I::Item>|
            #[trigger] p.accepts(s, m, xs[0]) && till_chain(p, end, m, xs.drop_first(), rest)
    }
}

/// Trying `end` and, where it fails, running `p`, over and over from `s`,
/// terminates.
pub open spec fn till_pre<I: Input, P: Parser<I>, Q: Parser<I>>(p: P, end: Q, s: Seq<I::Item>) -> bool
    decreases s.len(),
{
    &&& end.parse_pre(s)
    &&& (exists|e: ParseErr| #[trigger] end.rejects(s, e)) ==> {
        &&& p.parse_pre(s)
        &&& forall|m: Seq<I::Item>, x: P::Output|
            #[trigger] p.accepts(s, m, x) ==> m.len() < s.len() && till_pre(p, end, m)
    }
}

pub proof fn lemma_till_chain_push<I: Input, P: Parser<I>, Q: Parser<I>>(
    p: P,
    end: Q,
    s: Seq<I::Item>,
    xs: Seq<P::Output>,
    m: Seq<I::Item>,
    e: ParseErr,
    x: P::Output,
    m2: Seq<I::Item>,
)
    requires
        till_chain(p, end, s, xs, m),
        end.rejects(m, e),
        p.accepts(m, m2, x),
    ensures
        till_chain(p, end, s, xs.push(x), m2),
    decreases xs.len(),
{
    if xs.len() == 0 {
        assert(xs.push(x).drop_first() =~= Seq::<P::Output>::empty());
        assert(till_chain(p, end, m2, Seq::<P::Output>::empty(), m2));
        assert(xs.push(x)[0] == x);
    } else {
        let m1 = choose|m1: Seq<I::Item>|
            #[trigger] p.accepts(s, m1, xs[0]) && till_chain(p, end, m1, xs.drop_first(), m);
        lemma_till_chain_push(p, end, m1, xs.drop_first(), m, e, x, m2);
        assert(xs.push(x).drop_first() =~= xs.drop_first().push(x));
        assert(xs.push(x)[0] == xs[0]);
    }
}

/// The runs of `p` that `many_till` makes form a chain of `p`.
pub proof fn lemma_till_chain_is_chain<I: Input, P: Parser<I>, Q: Parser<I>>(
    p: P,
    end: Q,
    s: Seq<I::Item>,
    xs: Seq<P::Output>,
    r: Seq<I::Item>,
)
    requires
        till_chain(p, end, s, xs, r),
    ensures
        chain(p, s, xs, r),
    decreases xs.len(),
{
    if xs.len() > 0 {
        let m = choose|m: Seq<I::Item>| #[trigger] p.accepts(s, m, xs[0]) && till_chain(p, end, m, xs.drop_first(), r);
        lemma_till_chain_is_chain(p, end, m, xs.drop_first(), r);
    }
}

/// Where `p` and `end` can run on any input and `p` reads at least one item
/// wherever it succeeds, `many_till` can run on any input.
pub proof fn lemma_shrinking_till_pre<I: Input, P: Parser<I>, Q: Parser<I>>(p: P, end: Q, s: Seq<I::Item>)
    requires
        forall|t: Seq<I::Item>| #[trigger] p.parse_pre(t),
        forall|t: Seq<I::Item>| #[trigger] end.parse_pre(t),
        forall|t: Seq<I::Item>, m: Seq<I::Item>, x: P::Output| #[trigger] p.accepts(t, m, x) ==> m.len() < t.len(),
    ensures
        till_pre(p, end, s),
    decreases s.len(),
{
    assert(end.parse_pre(s));
    assert(p.parse_pre(s));
    assert forall|m: Seq<I::Item>, x: P::Output| #[trigger] p.accepts(s, m, x) implies m.len() < s.len() && till_pre(p, end, m) by {
        lemma_shrinking_till_pre(p, end, m);
    }
}

/// Reads with `parser` until `end` succeeds; `end` is only looked at, never
/// read past.
pub struct ManyTill<P, Q> {
    pub parser: P,
    pub end: Q,
}

impl<I: Input, O, P: Parser<I, Output = O>, Q: Parser<I>> Parser<I> for ManyTill<P, Q> {
    type Output = Vec<O>;

    open spec fn parse_pre(&self, s: Seq<I::Item>) -> bool {
        till_pre(self.parser, self.end, s)
    }

    open spec fn accepts(&self, s: Seq<I::Item>, rest: Seq<I::Item>, v: Vec<O>) -> bool {
        &&& till_chain(self.parser, self.end, s, v@, rest)
        &&& exists|m: Seq<I::Item>, y: Q::Output| #[trigger] self.end.accepts(rest, m, y)
    }

    open spec fn rejects(&self, s: Seq<I::Item>, e: ParseErr) -> bool {
        exists|xs: Seq<O>, m: Seq<I::Item>|
            #[trigger] till_chain(self.parser, self.end, s, xs, m) && (exists|e1: ParseErr|
                #[trigger] self.end.rejects(m, e1)) && self.parser.rejects(m, e)
    }

    fn parse(&self, input: I) -> (r: ParseResult<I, Vec<O>>) {
        let ghost s = input.items();
        let mut l = Vec::new();
        let mut i = input;
        assert(till_chain(self.parser, self.end, s, l@, s));
        loop
            invariant
                s == input.items(),
                till_chain(self.parser, self.end, s, l@, i.items()),
                till_pre(self.parser, self.end, i.items()),
            decreases i.items().len(),
        {
            let ghost cur = i.items();
            match self.end.parse(i.duplicate()) {
                Ok(_) => return Ok((i, l)),
                Err(e1) => match self.parser.parse(i) {
                    Ok((ii, a)) => {
                        proof {
                            lemma_till_chain_push(self.parser, self.end, s, l@, cur, e1, a, ii.items());
                        }
                        l.push(a);
                        i = ii;
                    },
                    Err(e) => {
                        assert(till_chain(self.parser, self.end, s, l@, cur) && self.end.rejects(cur, e1));
                        return Err(e);
                    },
                },
            }
        }
    }
}

/// The first components of a sequence of pairs.
pub open spec fn firsts<A, B>(ys: Seq<(A, B)>) -> Seq<A> {
    ys.map_values(|y: (A, B)| y.0)
}

proof fn lemma_firsts_push<A, B>(ys: Seq<(A, B)>, y: (A, B))
    ensures
        firsts(ys.push(y)) == firsts(ys).push(y.0),
{
    assert(firsts(ys.push(y)) =~= firsts(ys).push(y.0));
}

/// `parser` runs that follow a first one, each preceded by a `sep` run,
/// as `SepBy` and `SepBy1` read them: from `m`, the values `xs` and then a
/// `sep` that fails at `rest`.
pub open spec fn sep_tail_accepts<I: Input, P: Parser<I>, S: Parser<I>>(
    parser: P,
    sep: S,
    m: Seq<I::Item>,
    xs: Seq<P::Output>,
    rest: Seq<I::Item>,
) -> bool {
    &&& chain(Sequence { a: sep, b: parser }, m, xs, rest)
    &&& exists|e: ParseErr| #[trigger] sep.rejects(rest, e)
}

/// The way such runs from `m` may fail: a `sep` succeeds and the `parser`
/// after it fails with `e`.
pub open spec fn sep_tail_rejects<I: Input, P: Parser<I>, S: Parser<I>>(
    parser: P,
    sep: S,
    m: Seq<I::Item>,
    e: ParseErr,
) -> bool {
    exists|xs: Seq<P::Output>, m2: Seq<I::Item>|
        #[trigger] chain(Sequence { a: sep, b: parser }, m, xs, m2) && exists|
            m3: Seq<I::Item>,
            y: S::Output,
        | #[trigger] sep.accepts(m2, m3, y) && parser.rejects(m3, e)
}

/// Reading `sep`-separated values from `m` terminates.
pub open spec fn sep_tail_pre<I: Input, P: Parser<I>, S: Parser<I>>(
    parser: P,
    sep: S,
    m: Seq<I::Item>,
) -> bool {
    iter_pre(Sequence { a: sep, b: parser }, m)
}

/// The loop shared by `SepBy` and `SepBy1`: from `i`, where the first value
/// has been read into `l`, reads `sep` then `parser` while `sep` succeeds.
fn sep_by_tail<I: Input, O, P: Parser<I, Output = O>, S: Parser<I>>(
    parser: &P,
    sep: &S,
    input: I,
    prefix: Vec<O>,
) -> (r: ParseResult<I, Vec<O>>)
    requires
        sep_tail_pre(*parser, *sep, input.items()),
    ensures
        match r {
            Ok((rest, v)) => {
                &&& v@.len() >= prefix@.len()
                &&& v@.subrange(0, prefix@.len() as int) == prefix@
                &&& sep_tail_accepts(
                    *parser,
                    *sep,
                    input.items(),
                    v@.skip(prefix@.len() as int),
                    rest.items(),
                )
            },
            Err(e) => sep_tail_rejects(*parser, *sep, input.items(), e),
        },
{
    let ghost q = Sequence { a: *sep, b: *parser };
    let ghost m = input.items();
    let ghost l0 = prefix@;
    let mut l = prefix;
    let mut i = input;
    let ghost mut xs: Seq<O> = Seq::empty();
    assert(chain(q, m, xs, m));
    loop
        invariant
            q == (Sequence { a: *sep, b: *parser }),
            m == input.items(),
            l0 == prefix@,
            l@ == l0 + xs,
            chain(q, m, xs, i.items()),
            iter_pre(q, i.items()),
        decreases i.items().len(),
    {
        let ghost cur = i.items();
        match sep.parse(i.duplicate()) {
            Err(_) => {
                assert(l@.subrange(0, l0.len() as int) =~= l0);
                assert(l@.skip(l0.len() as int) =~= xs);
                return Ok((i, l));
            },
            Ok((ii, y)) => {
                let ghost m1 = ii.items();
                match parser.parse(ii) {
                    Err(e) => {
                        assert(chain(q, m, xs, cur) && sep.accepts(cur, m1, y) && parser.rejects(m1, e));
                        return Err(e);
                    },
                    Ok((ii, o)) => {
                        proof {
                            assert(q.accepts(cur, ii.items(), o));
                            lemma_chain_push(q, m, xs, cur, o, ii.items());
                            xs = xs.push(o);
                        }
                        l.push(o);
                        i = ii;
                    },
                }
            },
        }
    }
}

/// Reads values with `parser` separated by `sep`, possibly none.
pub struct SepBy<P, S> {
    pub parser: P,
    pub sep: S,
}

impl<I: Input, O, P: Parser<I, Output = O>, S: Parser<I>> Parser<I> for SepBy<P, S> {
    type Output = Vec<O>;

    open spec fn parse_pre(&self, s: Seq<I::Item>) -> bool {
        &&& self.parser.parse_pre(s)
        &&& forall|m: Seq<I::Item>, x: O|
            #[trigger] self.parser.accepts(s, m, x) ==> sep_tail_pre(self.parser, self.sep, m)
    }

    open spec fn accepts(&self, s: Seq<I::Item>, rest: Seq<I::Item>, v: Vec<O>) -> bool {
        ||| v@.len() == 0 && rest == s && exists|e: ParseErr| #[trigger] self.parser.rejects(s, e)
        ||| v@.len() > 0 && exists|m: Seq<I::Item>|
            #[trigger] self.parser.accepts(s, m, v@[0]) && sep_tail_accepts(
                self.parser,
                self.sep,
                m,
                v@.drop_first(),
                rest,
            )
    }

    open spec fn rejects(&self, s: Seq<I::Item>, e: ParseErr) -> bool {
        exists|m: Seq<I::Item>, x: O|
            #[trigger] self.parser.accepts(s, m, x) && sep_tail_rejects(self.parser, self.sep, m, e)
    }

    fn parse(&self, i: I) -> (r: ParseResult<I, Vec<O>>) {
        let ghost s = i.items();
        let mut l = Vec::new();
        match self.parser.parse(i.duplicate()) {
            Err(_) => Ok((i, l)),
            Ok((i1, o)) => {
                let ghost m = i1.items();
                l.push(o);
                let r = sep_by_tail(&self.parser, &self.sep, i1, l);
                proof {
                    if r is Ok {
                        let v = r->Ok_0.1;
                        assert(v@.drop_first() =~= v@.skip(1));
                        assert(v@[0] == v@.subrange(0, 1)[0]);
                        assert(self.parser.accepts(s, m, v@[0]));
                    }
                }
                r
            },
        }
    }
}

/// Reads values with `parser` separated by `sep`, at least one.
pub struct SepBy1<P, S> {
    pub parser: P,
    pub sep: S,
}

impl<I: Input, O, P: Parser<I, Output = O>, S: Parser<I>> Parser<I> for SepBy1<P, S> {
    type Output = Vec<O>;

    open spec fn parse_pre(&self, s: Seq<I::Item>) -> bool {
        &&& self.parser.parse_pre(s)
        &&& forall|m: Seq<I::Item>, x: O|
            #[trigger] self.parser.accepts(s, m, x) ==> sep_tail_pre(self.parser, self.sep, m)
    }

    open spec fn accepts(&self, s: Seq<I::Item>, rest: Seq<I::Item>, v: Vec<O>) -> bool {
        v@.len() > 0 && exists|m: Seq<I::Item>|
            #[trigger] self.parser.accepts(s, m, v@[0]) && sep_tail_accepts(
                self.parser,
                self.sep,
                m,
                v@.drop_first(),
                rest,
            )
    }

    open spec fn rejects(&self, s: Seq<I::Item>, e: ParseErr) -> bool {
        ||| self.parser.rejects(s, e)
        ||| exists|m: Seq<I::Item>, x: O|
            #[trigger] self.parser.accepts(s, m, x) && sep_tail_rejects(self.parser, self.sep, m, e)
    }

    fn parse(&self, i: I) -> (r: ParseResult<I, Vec<O>>) {
        let ghost s = i.items();
        let mut l = Vec::new();
        match self.parser.parse(i) {
            Err(e) => Err(e),
            Ok((i1, o)) => {
                let ghost m = i1.items();
                l.push(o);
                let r = sep_by_tail(&self.parser, &self.sep, i1, l);
                proof {
                    if r is Ok {
                        let v = r->Ok_0.1;
                        assert(v@.drop_first() =~= v@.skip(1));
                        assert(v@[0] == v@.subrange(0, 1)[0]);
                        assert(self.parser.accepts(s, m, v@[0]));
                    }
                }
                r
            },
        }
    }
}

/// `parser` runs each followed by a `sep` run, as `EndBy` and `EndBy1` read
/// them: from `m`, the values `xs`, each with its `sep` after it, and then a
/// `parser` that fails at `rest`.
pub open spec fn end_tail_accepts<I: Input, P: Parser<I>, S: Parser<I>>(
    parser: P,
    sep: S,
    m: Seq<I::Item>,
    xs: Seq<P::Output>,
    rest: Seq<I::Item>,
) -> bool {
    &&& exists|ys: Seq<(P::Output, S::Output)>|
        #[trigger] chain(And { f: parser, g: sep }, m, ys, rest) && xs == firsts(ys)
    &&& exists|e: ParseErr| #[trigger] parser.rejects(rest, e)
}

/// The way such runs from `m` may fail: a `parser` succeeds and the `sep`
/// after it fails with `e`.
pub open spec fn end_tail_rejects<I: Input, P: Parser<I>, S: Parser<I>>(
    parser: P,
    sep: S,
    m: Seq<I::Item>,
    e: ParseErr,
) -> bool {
    exists|ys: Seq<(P::Output, S::Output)>, m2: Seq<I::Item>|
        #[trigger] chain(And { f: parser, g: sep }, m, ys, m2) && exists|
            m3: Seq<I::Item>,
            x: P::Output,
        | #[trigger] parser.accepts(m2, m3, x) && sep.rejects(m3, e)
}

/// `parser` runs separated and optionally ended by `sep` runs, as `SepEndBy`
/// and `SepEndBy1` read them: from `m`, the values `xs`, stopping where
/// `parser` fails after a `sep`, or where `sep` fails after a `parser`.
pub open spec fn sep_end_accepts<I: Input, P: Parser<I>, S: Parser<I>>(
    parser: P,
    sep: S,
    m: Seq<I::Item>,
    xs: Seq<P::Output>,
    rest: Seq<I::Item>,
) -> bool {
    ||| end_tail_accepts(parser, sep, m, xs, rest)
    ||| {
        &&& exists|ys: Seq<(P::Output, S::Output)>, m2: Seq<I::Item>, o: P::Output|
            #[trigger] chain(And { f: parser, g: sep }, m, ys, m2) && #[trigger] parser.accepts(
                m2,
                rest,
                o,
            ) && xs == firsts(ys).push(o)
        &&& exists|e: ParseErr| #[trigger] sep.rejects(rest, e)
    }
}

/// Reading `parser` then `sep` again and again from `m` terminates.
pub open spec fn end_tail_pre<I: Input, P: Parser<I>, S: Parser<I>>(
    parser: P,
    sep: S,
    m: Seq<I::Item>,
) -> bool {
    iter_pre(And { f: parser, g: sep }, m)
}

/// After the first pair: running `parser` then `sep` from `m` terminates, and
/// so does the loop after any pair that succeeds.
pub open spec fn first_pair_pre<I: Input, P: Parser<I>, S: Parser<I>>(
    parser: P,
    sep: S,
    s: Seq<I::Item>,
) -> bool {
    &&& (And { f: parser, g: sep }).parse_pre(s)
    &&& forall|m: Seq<I::Item>, y: (P::Output, S::Output)|
        #[trigger] (And { f: parser, g: sep }).accepts(s, m, y) ==> end_tail_pre(parser, sep, m)
}

/// The loop of `EndBy` and `EndBy1`, continuing from `input`, which is reached
/// from `s0` by the pairs `ys0` whose values are in `prefix`.
fn end_by_loop<I: Input, O, P: Parser<I, Output = O>, S: Parser<I>>(
    parser: &P,
    sep: &S,
    input: I,
    prefix: Vec<O>,
    Ghost(s0): Ghost<Seq<I::Item>>,
    Ghost(ys0): Ghost<Seq<(O, S::Output)>>,
) -> (r: ParseResult<I, Vec<O>>)
    requires
        end_tail_pre(*parser, *sep, input.items()),
        chain(And { f: *parser, g: *sep }, s0, ys0, input.items()),
        prefix@ == firsts(ys0),
    ensures
        match r {
            Ok((rest, v)) => v@.len() >= prefix@.len() && end_tail_accepts(*parser, *sep, s0, v@, rest.items()),
            Err(e) => end_tail_rejects(*parser, *sep, s0, e),
        },
{
    let ghost q = And { f: *parser, g: *sep };
    let ghost n0 = prefix@.len();
    let mut l = prefix;
    let mut i = input;
    let ghost mut ys = ys0;
    loop
        invariant
            q == (And { f: *parser, g: *sep }),
            n0 == prefix@.len(),
            l@.len() >= n0,
            chain(q, s0, ys, i.items()),
            l@ == firsts(ys),
            iter_pre(q, i.items()),
        decreases i.items().len(),
    {
        let ghost cur = i.items();
        match parser.parse(i.duplicate()) {
            Err(_) => {
                return Ok((i, l));
            },
            Ok((ii, o)) => {
                let ghost m1 = ii.items();
                let ghost go = o;
                match sep.parse(ii) {
                    Err(e) => {
                        assert(chain(q, s0, ys, cur) && parser.accepts(cur, m1, go) && sep.rejects(m1, e));
                        return Err(e);
                    },
                    Ok((ii2, y)) => {
                        proof {
                            let pair = (go, y);
                            assert(parser.accepts(cur, m1, pair.0));
                            assert(q.accepts(cur, ii2.items(), pair));
                            lemma_chain_push(q, s0, ys, cur, pair, ii2.items());
                            lemma_firsts_push(ys, pair);
                            ys = ys.push(pair);
                        }
                        l.push(o);
                        i = ii2;
                    },
                }
            },
        }
    }
}

/// Reads values with `parser`, each followed by `sep`, possibly none.
pub struct EndBy<P, S> {
    pub parser: P,
    pub sep: S,
}

impl<I: Input, O, P: Parser<I, Output = O>, S: Parser<I>> Parser<I> for EndBy<P, S> {
    type Output = Vec<O>;

    open spec fn parse_pre(&self, s: Seq<I::Item>) -> bool {
        end_tail_pre(self.parser, self.sep, s)
    }

    open spec fn accepts(&self, s: Seq<I::Item>, rest: Seq<I::Item>, v: Vec<O>) -> bool {
        end_tail_accepts(self.parser, self.sep, s, v@, rest)
    }

    open spec fn rejects(&self, s: Seq<I::Item>, e: ParseErr) -> bool {
        end_tail_rejects(self.parser, self.sep, s, e)
    }

    fn parse(&self, i: I) -> (r: ParseResult<I, Vec<O>>) {
        let ghost s = i.items();
        let l = Vec::new();
        proof {
            assert(chain(And { f: self.parser, g: self.sep }, s, Seq::empty(), s));
            assert(firsts(Seq::<(O, S::Output)>::empty()) =~= l@);
        }
        end_by_loop(&self.parser, &self.sep, i, l, Ghost(s), Ghost(Seq::empty()))
    }
}

/// Reads values with `parser`, each followed by `sep`, at least one.
pub struct EndBy1<P, S> {
    pub parser: P,
    pub sep: S,
}

impl<I: Input, O, P: Parser<I, Output = O>, S: Parser<I>> Parser<I> for EndBy1<P, S> {
    type Output = Vec<O>;

    open spec fn parse_pre(&self, s: Seq<I::Item>) -> bool {
        first_pair_pre(self.parser, self.sep, s)
    }

    open spec fn accepts(&self, s: Seq<I::Item>, rest: Seq<I::Item>, v: Vec<O>) -> bool {
        v@.len() > 0 && end_tail_accepts(self.parser, self.sep, s, v@, rest)
    }

    open spec fn rejects(&self, s: Seq<I::Item>, e: ParseErr) -> bool {
        self.parser.rejects(s, e) || end_tail_rejects(self.parser, self.sep, s, e)
    }

    fn parse(&self, i: I) -> (r: ParseResult<I, Vec<O>>) {
        let ghost s = i.items();
        let ghost q = And { f: self.parser, g: self.sep };
        let mut l = Vec::new();
        match self.parser.parse(i) {
            Err(e) => Err(e),
            Ok((i1, o)) => {
                let ghost m1 = i1.items();
                let ghost go = o;
                match self.sep.parse(i1) {
                    Err(e) => {
                        assert(chain(q, s, Seq::empty(), s) && self.parser.accepts(s, m1, go)
                            && self.sep.rejects(m1, e));
                        Err(e)
                    },
                    Ok((i2, y)) => {
                        let ghost pair = (go, y);
                        proof {
                            assert(self.parser.accepts(s, m1, pair.0));
                            assert(q.accepts(s, i2.items(), pair));
                            assert(chain(q, s, Seq::empty(), s));
                            lemma_chain_push(q, s, Seq::empty(), s, pair, i2.items());
                            lemma_firsts_push(Seq::empty(), pair);
                            assert(Seq::<(O, S::Output)>::empty().push(pair) =~= seq![pair]);
                            assert(firsts(Seq::<(O, S::Output)>::empty()) =~= Seq::<O>::empty());
                        }
                        l.push(o);
                        let ghost ys0 = seq![pair];
                        end_by_loop(&self.parser, &self.sep, i2, l, Ghost(s), Ghost(ys0))
                    },
                }
            },
        }
    }
}

/// The loop of `SepEndBy` and `SepEndBy1`, continuing from `input`, which is
/// reached from `s0` by the pairs `ys0` whose values are in `prefix`.
fn sep_end_loop<I: Input, O, P: Parser<I, Output = O>, S: Parser<I>>(
    parser: &P,
    sep: &S,
    input: I,
    prefix: Vec<O>,
    Ghost(s0): Ghost<Seq<I::Item>>,
    Ghost(ys0): Ghost<Seq<(O, S::Output)>>,
) -> (r: ParseResult<I, Vec<O>>)
    requires
        end_tail_pre(*parser, *sep, input.items()),
        chain(And { f: *parser, g: *sep }, s0, ys0, input.items()),
        prefix@ == firsts(ys0),
    ensures
        match r {
            Ok((rest, v)) => v@.len() >= prefix@.len() && sep_end_accepts(*parser, *sep, s0, v@, rest.items()),
            Err(e) => false,
        },
{
    let ghost q = And { f: *parser, g: *sep };
    let ghost n0 = prefix@.len();
    let mut l = prefix;
    let mut i = input;
    let ghost mut ys = ys0;
    loop
        invariant
            q == (And { f: *parser, g: *sep }),
            n0 == prefix@.len(),
            l@.len() >= n0,
            chain(q, s0, ys, i.items()),
            l@ == firsts(ys),
            iter_pre(q, i.items()),
        decreases i.items().len(),
    {
        let ghost cur = i.items();
        match parser.parse(i.duplicate()) {
            Err(_) => {
                return Ok((i, l));
            },
            Ok((ii, o)) => {
                let ghost m1 = ii.items();
                let ghost go = o;
                match sep.parse(ii.duplicate()) {
                    Err(e) => {
                        proof {
                            assert(chain(q, s0, ys, cur) && parser.accepts(cur, m1, go));
                            assert(sep.rejects(m1, e));
                        }
                        l.push(o);
                        assert(l@ == firsts(ys).push(go));
                        return Ok((ii, l));
                    },
                    Ok((ii2, y)) => {
                        proof {
                            let pair = (go, y);
                            assert(parser.accepts(cur, m1, pair.0));
                            assert(q.accepts(cur, ii2.items(), pair));
                            lemma_chain_push(q, s0, ys, cur, pair, ii2.items());
                            lemma_firsts_push(ys, pair);
                            ys = ys.push(pair);
                        }
                        l.push(o);
                        i = ii2;
                    },
                }
            },
        }
    }
}

/// Reads values with `parser` separated, and optionally ended, by `sep`,
/// possibly none.
pub struct SepEndBy<P, S> {
    pub parser: P,
    pub sep: S,
}

impl<I: Input, O, P: Parser<I, Output = O>, S: Parser<I>> Parser<I> for SepEndBy<P, S> {
    type Output = Vec<O>;

    open spec fn parse_pre(&self, s: Seq<I::Item>) -> bool {
        end_tail_pre(self.parser, self.sep, s)
    }

    open spec fn accepts(&self, s: Seq<I::Item>, rest: Seq<I::Item>, v: Vec<O>) -> bool {
        sep_end_accepts(self.parser, self.sep, s, v@, rest)
    }

    open spec fn rejects(&self, s: Seq<I::Item>, e: ParseErr) -> bool {
        false
    }

    fn parse(&self, i: I) -> (r: ParseResult<I, Vec<O>>) {
        let ghost s = i.items();
        let l = Vec::new();
        proof {
            assert(chain(And { f: self.parser, g: self.sep }, s, Seq::empty(), s));
            assert(firsts(Seq::<(O, S::Output)>::empty()) =~= l@);
        }
        sep_end_loop(&self.parser, &self.sep, i, l, Ghost(s), Ghost(Seq::empty()))
    }
}

/// Reads values with `parser` separated, and optionally ended, by `sep`, at
/// least one.
pub struct SepEndBy1<P, S> {
    pub parser: P,
    pub sep: S,
}

impl<I: Input, A, B, P: Parser<I, Output = A>, S: Parser<I, Output = B>> Parser<I> for SepEndBy1<P, S> {
    type Output = Vec<A>;

    open spec fn parse_pre(&self, s: Seq<I::Item>) -> bool {
        first_pair_pre(self.parser, self.sep, s)
    }

    open spec fn accepts(&self, s: Seq<I::Item>, rest: Seq<I::Item>, v: Vec<A>) -> bool {
        v@.len() > 0 && sep_end_accepts(self.parser, self.sep, s, v@, rest)
    }

    open spec fn rejects(&self, s: Seq<I::Item>, e: ParseErr) -> bool {
        self.parser.rejects(s, e)
    }

    fn parse(&self, i: I) -> (r: ParseResult<I, Vec<A>>) {
        let ghost s = i.items();
        let ghost q = And { f: self.parser, g: self.sep };
        let mut l = Vec::new();
        match self.parser.parse(i) {
            Err(e) => Err(e),
            Ok((i1, o)) => {
                let ghost m1 = i1.items();
                let ghost go = o;
                match self.sep.parse(i1.duplicate()) {
                    Err(e) => {
                        proof {
                            assert(chain(q, s, Seq::empty(), s) && self.parser.accepts(s, m1, go));
                            assert(self.sep.rejects(m1, e));
                            assert(firsts(Seq::<(A, B)>::empty()).push(go) =~= seq![go]);
                        }
                        l.push(o);
                        assert(l@ =~= seq![go]);
                        Ok((i1, l))
                    },
                    Ok((i2, y)) => {
                        let ghost pair = (go, y);
                        proof {
                            assert(self.parser.accepts(s, m1, pair.0));
                            assert(q.accepts(s, i2.items(), pair));
                            assert(chain(q, s, Seq::empty(), s));
                            lemma_chain_push(q, s, Seq::empty(), s, pair, i2.items());
                            lemma_firsts_push(Seq::empty(), pair);
                            assert(Seq::<(A, B)>::empty().push(pair) =~= seq![pair]);
                            assert(firsts(Seq::<(A, B)>::empty()) =~= Seq::<A>::empty());
                        }
                        l.push(o);
                        let ghost ys0 = seq![pair];
                        sep_end_loop(&self.parser, &self.sep, i2, l, Ghost(s), Ghost(ys0))
                    },
                }
            },
        }
    }
}

} // verus!
