//! A demonstration grammar: a long chain of combinators over a handful of
//! letters, read in five parts. Each step runs the combinators the grammar
//! names, and what it reads, leaves or reports is stated directly over the
//! characters.
use vstd::prelude::*;
use crate::chars::{
    char, eof, lemma_ap_reads_literal, lemma_bracket_reads_literal, lemma_char_reads_literal,
    lemma_lift_a2_reads_literal, lemma_literal_chain, lemma_literal_iter_pre, lemma_literal_prefix,
    lemma_mapped_reads_literal, lemma_sequence_reads_literal, lemma_surround_reads_literal,
    lemma_void_reads_literal, match_literal, reads_literal, strip, EOF,
};
use crate::combinators::{
    id, lemma_satisfy_rejects, lift_a_2, pure, satisfy, unexpected, unexpected_text, char_debug_text, And, AndThen,
    NotFollowedBy, Optional, Pure, Sequence,
};
use crate::laws::{lemma_and_then_pure, lemma_chars_read_front, lemma_repeat_reads_front, reads_front};
use crate::parser::{any_char, AnyChar, Input, ParseErr, ParseResult, Parser};
use crate::refine::{
    any_char_fn, char_fn, filter_fn, id_view, lemma_any_char_refines, lemma_char_refines,
    lemma_satisfy_refines, lemma_skip_many_refines, progresses, refines, total,
};
use crate::repeat::{
    chain, firsts, lemma_shrinking_iter_pre, lemma_shrinking_till_pre, lemma_till_chain_is_chain,
    till_chain, Count, EndBy, Many, SepBy, SepEndBy, SkipSome,
};

verus! {

/// How a step stops: with exactly this error, or with an `Unexpected` error
/// whose message is exactly the given text.
pub enum Stop {
    Error(ParseErr),
    Message(Seq<char>),
}

pub open spec fn stops_with(st: Stop, e: ParseErr) -> bool {
    match st {
        Stop::Error(e0) => e == e0,
        Stop::Message(text) => unexpected_text(e, text),
    }
}

/// What a step does: the characters it leaves, or how it stops.
pub type Step = Result<Seq<char>, Stop>;

/// The result `r` of running a step is what `st` says.
pub open spec fn outcome<I: Input<Item = char>, O>(r: ParseResult<I, O>, st: Step) -> bool {
    match r {
        Ok((rest, _)) => st == Ok::<Seq<char>, Stop>(rest.items()),
        Err(e) => st matches Err(x) && stops_with(x, e),
    }
}

/// Runs `next` on what `st` leaves, or stops as `st` does.
pub open spec fn then(st: Step, next: spec_fn(Seq<char>) -> Step) -> Step {
    match st {
        Ok(m) => next(m),
        Err(x) => Err(x),
    }
}

/// `s` starts with `c`.
pub open spec fn starts_with(c: char, s: Seq<char>) -> bool {
    s.len() > 0 && s[0] == c
}

/// The error of reading `c` where it does not come next.
pub open spec fn char_error(c: char, s: Seq<char>) -> Stop {
    Stop::Error(if s.len() == 0 { ParseErr::EOF() } else { ParseErr::Expected(c) })
}

/// Reading the literal `t`.
pub open spec fn literal_step(t: Seq<char>, s: Seq<char>) -> Step {
    match match_literal(t, s) {
        Ok(r) => Ok(r),
        Err(e) => Err(Stop::Error(e)),
    }
}

/// The literal `t` if it comes next, else nothing.
pub open spec fn opt_literal(t: Seq<char>, s: Seq<char>) -> Seq<char> {
    match match_literal(t, s) {
        Ok(r) => r,
        Err(_) => s,
    }
}

/// `ab`, or else `cd`: what is left and the two characters.
pub open spec fn pair_step(s: Seq<char>) -> Result<(Seq<char>, (char, char)), ParseErr> {
    match match_literal(seq!['a', 'b'], s) {
        Ok(r) => Ok((r, ('a', 'b'))),
        Err(_) => match match_literal(seq!['c', 'd'], s) {
            Ok(r) => Ok((r, ('c', 'd'))),
            Err(e) => Err(e),
        },
    }
}

/// The quoted `e` in brackets: `['e']`.
pub open spec fn quoted_e() -> Seq<char> {
    seq!['[', '\'', 'e', '\'', ']']
}

/// One or more `c`.
pub open spec fn some_step(c: char, s: Seq<char>) -> Step {
    if starts_with(c, s) {
        Ok(strip(seq![c], s))
    } else {
        Err(char_error(c, s))
    }
}

/// `g`, then `r` and `g` in turn for as long as they come; an `r` may end it.
pub open spec fn sep_end_step(g: char, r: char, s: Seq<char>) -> Step {
    if starts_with(g, s) {
        let n = strip(seq![g, r], s);
        if starts_with(g, n) {
            Ok(n.drop_first())
        } else {
            Ok(n)
        }
    } else {
        Err(char_error(g, s))
    }
}

/// `x`, then `y` and `x` in turn for as long as a `y` comes; an `x` must
/// follow every `y`.
pub open spec fn sep_by1_step(x: char, y: char, s: Seq<char>) -> Step {
    if starts_with(x, s) {
        let n = strip(seq![y, x], s.drop_first());
        if starts_with(y, n) {
            Err(char_error(x, n.drop_first()))
        } else {
            Ok(n)
        }
    } else {
        Err(char_error(x, s))
    }
}

/// Part b: one or more `f`, the `g`/`r` alternation, an optional `h`, an
/// optional `f`, and `x`s separated by `y`s.
pub open spec fn part_b(m: Seq<char>) -> Step {
    then(
        then(some_step('f', m), |m: Seq<char>| sep_end_step('g', 'r', m)),
        |m: Seq<char>| sep_by1_step('x', 'y', opt_literal(seq!['f'], opt_literal(seq!['h'], m))),
    )
}

/// One or more characters equal to `c`, each read and then tested.
pub open spec fn satisfy_some_step(c: char, s: Seq<char>) -> Step {
    if s.len() == 0 {
        Err(Stop::Error(ParseErr::EOF()))
    } else if s[0] != c {
        Err(Stop::Message("Unexpected input: "@ + char_debug_text(s[0])))
    } else {
        Ok(strip(seq![c], s))
    }
}

/// One or more copies of `t`.
pub open spec fn some_literal_step(t: Seq<char>, s: Seq<char>) -> Step {
    match match_literal(t, s) {
        Ok(_) => Ok(strip(t, s)),
        Err(e) => Err(Stop::Error(e)),
    }
}

/// Part c: one or more `z`, any number of `xy`, then `zy`, then one or more
/// `zx`.
pub open spec fn part_c(m: Seq<char>) -> Step {
    then(
        then(
            satisfy_some_step('z', m),
            |m: Seq<char>| literal_step(seq!['z', 'y'], strip(seq!['x', 'y'], m)),
        ),
        |m: Seq<char>| some_literal_step(seq!['z', 'x'], m),
    )
}

/// `t`, where something follows it.
pub open spec fn not_last_step(t: Seq<char>, s: Seq<char>) -> Step {
    match match_literal(t, s) {
        Ok(r) => if r.len() > 0 {
            Ok(r)
        } else {
            Err(Stop::Message("Unexpected: "@ + seq!['(', ')']))
        },
        Err(e) => Err(Stop::Error(e)),
    }
}

/// Any number of `x`, up to a `z`, which is left unread.
pub open spec fn till_step(x: char, z: char, s: Seq<char>) -> Step {
    let r = strip(seq![x], s);
    if starts_with(z, r) {
        Ok(r)
    } else {
        Err(char_error(x, r))
    }
}

/// `y` and `z` in turn, one or more times; a `z` must follow every `y`.
pub open spec fn end_by1_step(y: char, z: char, s: Seq<char>) -> Step {
    match match_literal(seq![y, z], s) {
        Err(e) => Err(Stop::Error(e)),
        Ok(_) => {
            let r = strip(seq![y, z], s);
            if starts_with(y, r) {
                Err(char_error(z, r.drop_first()))
            } else {
                Ok(r)
            }
        },
    }
}

/// Part d: `yx` with more after it, any number of `xy`, `yz`, any number of
/// `x` up to a `z`, then `yz` one or more times.
pub open spec fn part_d(m: Seq<char>) -> Step {
    then(
        then(
            then(
                not_last_step(seq!['y', 'x'], m),
                |m: Seq<char>| literal_step(seq!['y', 'z'], strip(seq!['x', 'y'], m)),
            ),
            |m: Seq<char>| till_step('x', 'z', m),
        ),
        |m: Seq<char>| end_by1_step('y', 'z', m),
    )
}

/// One run of the closing group: `ab` if it comes, twice.
pub open spec fn group_e(m: Seq<char>) -> Seq<char> {
    opt_literal(seq!['a', 'b'], opt_literal(seq!['a', 'b'], m))
}

/// The two characters of `t`, each between single quotes.
pub open spec fn shown_pair(t: (char, char)) -> Seq<char> {
    seq!['\'', t.0, '\'', '\'', t.1, '\'']
}

/// What the demonstration grammar does on `s`: `ab` or `cd`, parts a to d,
/// and the closing group twice; it gives the characters left and the pair
/// read first, shown, or says how it stopped.
pub open spec fn foo_spec(s: Seq<char>) -> Result<(Seq<char>, Seq<char>), Stop> {
    match pair_step(s) {
        Err(e) => Err(Stop::Error(e)),
        Ok((m, t)) => match then(
            then(then(literal_step(quoted_e(), m), |m: Seq<char>| part_b(m)), |m: Seq<char>| part_c(m)),
            |m: Seq<char>| part_d(m),
        ) {
            Ok(r) => Ok((group_e(group_e(r)), shown_pair(t))),
            Err(st) => Err(st),
        },
    }
}

/// The demonstration grammar never succeeds: part d reads `x`s up to a `z`
/// and leaves the `z`, where the `y` that must come next is missing; it stops
/// there with `Expected('y')` unless it stopped earlier.
pub proof fn lemma_foo_never_succeeds(s: Seq<char>)
    ensures
        foo_spec(s) is Err,
{
    assert forall|m: Seq<char>| #[trigger] part_d(m) is Err by {
        let m1 = then(
            then(not_last_step(seq!['y', 'x'], m), |m: Seq<char>| literal_step(seq!['y', 'z'], strip(seq!['x', 'y'], m))),
            |m: Seq<char>| till_step('x', 'z', m),
        );
        if m1 is Ok {
            let r = m1->Ok_0;
            assert(starts_with('z', r));
            assert(seq!['y', 'z'][0] == 'y');
            assert(match_literal(seq!['y', 'z'], r) == Err::<Seq<char>, ParseErr>(ParseErr::Expected('y')));
        }
    }
}

/// Runs the literal reader `q` and says what it gave in terms of `t`.
fn run_literal<I: Input<Item = char>, Q: Parser<I>>(q: &Q, Ghost(t): Ghost<Seq<char>>, input: I) -> (r: ParseResult<I, Q::Output>)
    requires
        reads_literal(*q, t),
    ensures
        outcome(r, literal_step(t, input.items())),
{
    q.parse(input)
}

/// Reads `ab` or else `cd`, and gives the two characters.
fn read_pair<I: Input<Item = char>>(input: I) -> (r: ParseResult<I, (char, char)>)
    ensures
        match r {
            Ok((rest, t)) => pair_step(input.items()) == Ok::<(Seq<char>, (char, char)), ParseErr>((rest.items(), t)),
            Err(e) => pair_step(input.items()) == Err::<(Seq<char>, (char, char)), ParseErr>(e),
        },
{
    let p = char('a').and(char('b')).or(char('c').and(char('d')));
    proof {
        lemma_char_reads_literal::<I>(p.f.f);
        lemma_char_reads_literal::<I>(p.f.g);
        lemma_char_reads_literal::<I>(p.g.f);
        lemma_char_reads_literal::<I>(p.g.g);
        lemma_sequence_reads_literal(p.f.f, p.f.g, seq!['a'], seq!['b']);
        lemma_sequence_reads_literal(p.g.f, p.g.g, seq!['c'], seq!['d']);
        assert(seq!['a'] + seq!['b'] =~= seq!['a', 'b']);
        assert(seq!['c'] + seq!['d'] =~= seq!['c', 'd']);
    }
    p.parse(input)
}

/// Reads the quoted `e` in brackets.
fn read_quoted_e<I: Input<Item = char>>(input: I) -> (r: ParseResult<I, char>)
    ensures
        outcome(r, literal_step(quoted_e(), input.items())),
{
    let p = char('e').surround(char('\'')).bracket(char('['), char(']'));
    proof {
        lemma_char_reads_literal::<I>(p.parser.parser);
        lemma_char_reads_literal::<I>(p.parser.surround);
        lemma_char_reads_literal::<I>(p.brac);
        lemma_char_reads_literal::<I>(p.ket);
        lemma_surround_reads_literal(p.parser.parser, p.parser.surround, seq!['e'], seq!['\'']);
        lemma_bracket_reads_literal(p.parser, p.brac, p.ket, seq!['\''] + seq!['e'] + seq!['\''], seq!['['], seq![']']);
        assert(seq!['['] + (seq!['\''] + seq!['e'] + seq!['\'']) + seq![']'] =~= quoted_e());
    }
    run_literal(&p, Ghost(quoted_e()), input)
}

/// Reads one or more `f`.
fn read_fs<I: Input<Item = char>>(input: I) -> (r: ParseResult<I, Vec<char>>)
    ensures
        outcome(r, some_step('f', input.items())),
{
    let p = char('f').some();
    let ghost s = input.items();
    proof {
        lemma_char_reads_literal::<I>(p.parser);
        assert forall|t: Seq<char>| #[trigger] p.parse_pre(t) by {
            lemma_literal_iter_pre(p.parser, seq!['f'], t);
        }
    }
    let r = p.parse(input);
    proof {
        if r is Ok {
            let (rest, v) = r->Ok_0;
            let e = choose|e: ParseErr| #[trigger] p.parser.rejects(rest.items(), e);
            lemma_literal_chain(p.parser, seq!['f'], s, v@, rest.items());
            let m = choose|m: Seq<char>| #[trigger] p.parser.accepts(s, m, v@[0]) && chain(p.parser, m, v@.drop_first(), rest.items());
        }
    }
    r
}

/// Reads a `g`, then `r` and `g` in turn, where a failing first choice gives
/// way to the alternation.
fn read_alternation<I: Input<Item = char>>(input: I) -> (r: ParseResult<I, Vec<char>>)
    ensures
        outcome(r, sep_end_step('g', 'r', input.items())),
{
    let p = unexpected(String::from_str("unexpected")).or(char('g').sep_end_by_1(char('r')));
    let ghost s = input.items();
    let ghost q = And { f: p.g.parser, g: p.g.sep };
    let ghost gr = seq!['g', 'r'];
    proof {
        lemma_char_reads_literal::<I>(p.g.parser);
        lemma_char_reads_literal::<I>(p.g.sep);
        lemma_sequence_reads_literal(p.g.parser, p.g.sep, seq!['g'], seq!['r']);
        assert(seq!['g'] + seq!['r'] =~= gr);
        assert forall|t: Seq<char>| crate::repeat::end_tail_pre(p.g.parser, p.g.sep, t) by {
            lemma_literal_iter_pre(q, gr, t);
        }
        assert(p.g.parse_pre(s));
    }
    let r = p.parse(input);
    proof {
        if r is Ok {
            let (rest, v) = r->Ok_0;
            let rs = rest.items();
            if crate::repeat::end_tail_accepts(p.g.parser, p.g.sep, s, v@, rs) {
                let ys = choose|ys: Seq<(char, char)>| #[trigger] chain(q, s, ys, rs) && v@ == firsts(ys);
                let e = choose|e: ParseErr| #[trigger] p.g.parser.rejects(rs, e);
                lemma_literal_chain(q, gr, s, ys, rs);
                assert(ys.len() > 0);
                let m = choose|m: Seq<char>| #[trigger] q.accepts(s, m, ys[0]) && chain(q, m, ys.drop_first(), rs);
                lemma_literal_prefix(gr, s);
                assert(s[0] == gr[0]);
            } else {
                let (ys, m2, o) = choose|ys: Seq<(char, char)>, m2: Seq<char>, o: char| #[trigger] chain(q, s, ys, m2) && #[trigger] p.g.parser.accepts(m2, rs, o) && v@ == firsts(ys).push(o);
                let e = choose|e: ParseErr| #[trigger] p.g.sep.rejects(rs, e);
                lemma_literal_prefix(gr, m2);
                lemma_literal_chain(q, gr, s, ys, m2);
                if ys.len() > 0 {
                    let m = choose|m: Seq<char>| #[trigger] q.accepts(s, m, ys[0]) && chain(q, m, ys.drop_first(), m2);
                    lemma_literal_prefix(gr, s);
                    assert(s[0] == gr[0]);
                }
            }
        }
    }
    r
}

/// Reads `x`s separated by `y`s.
fn read_xs<I: Input<Item = char>>(input: I) -> (r: ParseResult<I, Vec<char>>)
    ensures
        outcome(r, sep_by1_step('x', 'y', input.items())),
{
    let p = char('x').sep_by_1(char('y'));
    let ghost s = input.items();
    let ghost q = Sequence { a: p.sep, b: p.parser };
    let ghost yx = seq!['y', 'x'];
    proof {
        lemma_char_reads_literal::<I>(p.parser);
        lemma_char_reads_literal::<I>(p.sep);
        lemma_sequence_reads_literal(p.sep, p.parser, seq!['y'], seq!['x']);
        assert(seq!['y'] + seq!['x'] =~= yx);
        assert forall|t: Seq<char>| crate::repeat::sep_tail_pre(p.parser, p.sep, t) by {
            lemma_literal_iter_pre(q, yx, t);
        }
    }
    let r = p.parse(input);
    proof {
        if r is Ok {
            let (rest, v) = r->Ok_0;
            let rs = rest.items();
            let m = choose|m: Seq<char>| #[trigger] p.parser.accepts(s, m, v@[0]) && crate::repeat::sep_tail_accepts(p.parser, p.sep, m, v@.drop_first(), rs);
            let e = choose|e: ParseErr| #[trigger] p.sep.rejects(rs, e);
            lemma_literal_prefix(yx, rs);
            lemma_literal_chain(q, yx, m, v@.drop_first(), rs);
        } else {
            let e = r->Err_0;
            {
                if !p.parser.rejects(s, e) {
                    let (m, x) = choose|m: Seq<char>, x: char| #[trigger] p.parser.accepts(s, m, x) && crate::repeat::sep_tail_rejects(p.parser, p.sep, m, e);
                    let (xs, m2) = choose|xs: Seq<char>, m2: Seq<char>| #[trigger] chain(q, m, xs, m2) && exists|m3: Seq<char>, y: char| #[trigger] p.sep.accepts(m2, m3, y) && p.parser.rejects(m3, e);
                    let (m3, y) = choose|m3: Seq<char>, y: char| #[trigger] p.sep.accepts(m2, m3, y) && p.parser.rejects(m3, e);
                    lemma_literal_prefix(yx, m2);
                    lemma_literal_chain(q, yx, m, xs, m2);
                }
            }
        }
    }
    r
}

/// Part b.
fn run_part_b<I: Input<Item = char>>(input: I) -> (r: ParseResult<I, ()>)
    ensures
        outcome(r, part_b(input.items())),
{
    let i = match read_fs(input) {
        Ok((i, _)) => i,
        Err(e) => return Err(e),
    };
    let i = match read_alternation(i) {
        Ok((i, _)) => i,
        Err(e) => return Err(e),
    };
    let ghost m = i.items();
    let ph = char('h').optional();
    proof {
        lemma_char_reads_literal::<I>(ph.parser);
    }
    let (i, _) = match ph.parse(i) {
        Ok(r) => r,
        Err(e) => return Err(e),
    };
    assert(i.items() == opt_literal(seq!['h'], m));
    let ghost m = i.items();
    let pf = char('f').skip_optional();
    proof {
        lemma_char_reads_literal::<I>(pf.parser);
    }
    let (i, _) = match pf.parse(i) {
        Ok(r) => r,
        Err(e) => return Err(e),
    };
    assert(i.items() == opt_literal(seq!['f'], m));
    match read_xs(i) {
        Ok((i, _)) => Ok((i, ())),
        Err(e) => Err(e),
    }
}

/// A parser that reads nothing and gives `a`.
fn keep<I: Input>(a: ()) -> (q: Pure<I, impl Fn() -> ()>)
    ensures
        call_requires(q.f, ()),
{
    pure(move || a)
}

fn is_z(c: &char) -> (b: bool)
    ensures
        b == (*c == 'z'),
{
    *c == 'z'
}

/// A parser that agrees with reading one character that `pred` accepts, where
/// `pred` accepts exactly `c`, succeeds only by reading a `c`.
proof fn lemma_reads_one_of<I: Input<Item = char>, P: Parser<I, Output = char>>(
    p: P,
    c: char,
    pred: spec_fn(char) -> bool,
)
    requires
        refines(p, filter_fn(any_char_fn(), pred), id_view()),
        forall|x: char| #[trigger] pred(x) == (x == c),
    ensures
        forall|t: Seq<char>, m: Seq<char>, o: char|
            #[trigger] p.accepts(t, m, o) ==> starts_with(c, t) && m == t.drop_first(),
{
    assert forall|t: Seq<char>, m: Seq<char>, o: char| #[trigger] p.accepts(t, m, o) implies starts_with(c, t) && m == t.drop_first() by {
        assert(filter_fn(any_char_fn(), pred)(t) == Some((m, o)));
    }
}

/// Runs `p`, which reads one or more characters with `sat` and then gives
/// a value made by `pure`, where `sat` reads one character and accepts
/// exactly `c`.
fn run_satisfy_some<I: Input<Item = char>, S: Parser<I, Output = char>, G: Fn() -> (), F: Fn(()) -> Pure<I, G>>(
    p: &AndThen<SkipSome<S>, F>,
    Ghost(c): Ghost<char>,
    input: I,
) -> (r: ParseResult<I, ()>)
    requires
        forall|t: Seq<char>| #[trigger] p.parser.parser.parse_pre(t),
        forall|t: Seq<char>, m: Seq<char>, o: char|
            #[trigger] p.parser.parser.accepts(t, m, o) ==> starts_with(c, t) && m == t.drop_first(),
        forall|t: Seq<char>, e: ParseErr| #[trigger] p.parser.parser.rejects(t, e) ==> if t.len() == 0 {
            e == ParseErr::EOF()
        } else {
            t[0] != c && unexpected_text(e, "Unexpected input: "@ + char_debug_text(t[0]))
        },
        forall|a: ()| call_requires(p.f, (a,)),
        forall|a: (), q: Pure<I, G>| #[trigger] call_ensures(p.f, (a,), q) ==> call_requires(q.f, ()),
    ensures
        outcome(r, satisfy_some_step(c, input.items())),
{
    let ghost s = input.items();
    let ghost sat = p.parser.parser;
    proof {
        assert forall|t: Seq<char>| #[trigger] p.parser.parse_pre(t) by {
            lemma_shrinking_iter_pre(sat, t);
        }
        assert forall|t: Seq<char>, m: Seq<char>, o: char| #[trigger] sat.accepts(t, m, o) implies match_literal(seq![c], t) == Ok::<Seq<char>, ParseErr>(m) by {
            assert(seq![c].drop_first() =~= Seq::<char>::empty());
            assert(match_literal(seq![c].drop_first(), t.drop_first()) == Ok::<Seq<char>, ParseErr>(m));
        }
    }
    let r = p.parse(input);
    proof {
        lemma_and_then_pure(*p, s);
        if r is Ok {
            let m = r->Ok_0.0.items();
            let a = choose|a: ()| #[trigger] p.parser.accepts(s, m, a);
            let xs = choose|xs: Seq<char>| xs.len() > 0 && #[trigger] chain(sat, s, xs, m);
            let e = choose|e: ParseErr| #[trigger] sat.rejects(m, e);
            lemma_literal_prefix(seq![c], m);
            lemma_literal_chain(sat, seq![c], s, xs, m);
            let m1 = choose|m1: Seq<char>| #[trigger] sat.accepts(s, m1, xs[0]) && chain(sat, m1, xs.drop_first(), m);
        }
    }
    r
}

/// Reads one or more `z`, testing each character read.
fn read_zs<I: Input<Item = char>>(input: I) -> (r: ParseResult<I, ()>)
    ensures
        outcome(r, satisfy_some_step('z', input.items())),
{
    let p = satisfy(any_char(), is_z).skip_some().and_then(keep::<I>);
    let ghost sat = p.parser.parser;
    let ghost pred = |c: char| c == 'z';
    proof {
        lemma_any_char_refines::<I>(sat.parser);
        lemma_satisfy_refines(sat, any_char_fn(), id_view(), pred);
        lemma_reads_one_of(sat, 'z', pred);
        assert forall|t: Seq<char>, e: ParseErr| #[trigger] sat.rejects(t, e) implies if t.len() == 0 {
            e == ParseErr::EOF()
        } else {
            t[0] != 'z' && unexpected_text(e, "Unexpected input: "@ + char_debug_text(t[0]))
        } by {
            lemma_satisfy_rejects(sat, t, e);
        }
    }
    run_satisfy_some(&p, Ghost('z'), input)
}

/// Runs `p`, reading copies of the literal `t` for as long as they come.
fn run_many_literal<I: Input<Item = char>, Q: Parser<I>>(p: &Many<Q>, Ghost(t): Ghost<Seq<char>>, input: I) -> (r: ParseResult<I, Vec<Q::Output>>)
    requires
        t.len() > 0,
        reads_literal(p.parser, t),
    ensures
        outcome(r, Ok(strip(t, input.items()))),
{
    let ghost s = input.items();
    proof {
        assert forall|u: Seq<char>| #[trigger] p.parse_pre(u) by {
            lemma_literal_iter_pre(p.parser, t, u);
        }
    }
    let r = p.parse(input);
    proof {
        if r is Ok {
            let (rest, v) = r->Ok_0;
            let e = choose|e: ParseErr| #[trigger] p.parser.rejects(rest.items(), e);
            lemma_literal_prefix(t, rest.items());
            lemma_literal_chain(p.parser, t, s, v@, rest.items());
        }
    }
    r
}

/// Runs `p`, reading one or more copies of the literal `t`.
fn run_skip_some_literal<I: Input<Item = char>, Q: Parser<I>>(p: &SkipSome<Q>, Ghost(t): Ghost<Seq<char>>, input: I) -> (r: ParseResult<I, ()>)
    requires
        t.len() > 0,
        reads_literal(p.parser, t),
    ensures
        outcome(r, some_literal_step(t, input.items())),
{
    let ghost s = input.items();
    proof {
        assert forall|u: Seq<char>| #[trigger] p.parse_pre(u) by {
            lemma_literal_iter_pre(p.parser, t, u);
        }
    }
    let r = p.parse(input);
    proof {
        if r is Ok {
            let rest = r->Ok_0.0.items();
            let xs = choose|xs: Seq<Q::Output>| xs.len() > 0 && #[trigger] chain(p.parser, s, xs, rest);
            let e = choose|e: ParseErr| #[trigger] p.parser.rejects(rest, e);
            lemma_literal_prefix(t, rest);
            lemma_literal_chain(p.parser, t, s, xs, rest);
            let m1 = choose|m1: Seq<char>| #[trigger] p.parser.accepts(s, m1, xs[0]) && chain(p.parser, m1, xs.drop_first(), rest);
        }
    }
    r
}

/// Part c.
fn run_part_c<I: Input<Item = char>>(input: I) -> (r: ParseResult<I, ()>)
    ensures
        outcome(r, part_c(input.items())),
{
    let i = match read_zs(input) {
        Ok((i, _)) => i,
        Err(e) => return Err(e),
    };
    let xy = char('x').seq(char('y')).many();
    let zy = char('z').and(char('y'));
    let zx = char('z').seq(char('x')).skip_some();
    let ghost t_xy = seq!['x', 'y'];
    let ghost t_zy = seq!['z', 'y'];
    let ghost t_zx = seq!['z', 'x'];
    proof {
        lemma_char_reads_literal::<I>(xy.parser.a);
        lemma_char_reads_literal::<I>(xy.parser.b);
        lemma_sequence_reads_literal(xy.parser.a, xy.parser.b, seq!['x'], seq!['y']);
        assert(seq!['x'] + seq!['y'] =~= seq!['x', 'y']);
        lemma_char_reads_literal::<I>(zy.f);
        lemma_char_reads_literal::<I>(zy.g);
        lemma_sequence_reads_literal(zy.f, zy.g, seq!['z'], seq!['y']);
        assert(seq!['z'] + seq!['y'] =~= seq!['z', 'y']);
        lemma_char_reads_literal::<I>(zx.parser.a);
        lemma_char_reads_literal::<I>(zx.parser.b);
        lemma_sequence_reads_literal(zx.parser.a, zx.parser.b, seq!['z'], seq!['x']);
        assert(seq!['z'] + seq!['x'] =~= seq!['z', 'x']);
    }
    let i = match run_many_literal(&xy, Ghost(t_xy), i) {
        Ok((i, _)) => i,
        Err(e) => return Err(e),
    };
    let i = match run_literal(&zy, Ghost(t_zy), i) {
        Ok((i, _)) => i,
        Err(e) => return Err(e),
    };
    run_skip_some_literal(&zx, Ghost(t_zx), i)
}

/// Runs `p`: the literal `t`, then a look at what follows, which must not be
/// the end of the input.
fn run_not_last<I: Input<Item = char>, Q: Parser<I>>(p: &NotFollowedBy<Q, EOF>, Ghost(t): Ghost<Seq<char>>, input: I) -> (r: ParseResult<I, Q::Output>)
    requires
        reads_literal(p.parser, t),
    ensures
        outcome(r, not_last_step(t, input.items())),
{
    p.parse(input)
}

/// Runs `p`: the literal `t`, exactly once.
fn run_count_once<I: Input<Item = char>, Q: Parser<I>>(p: &Count<Q>, Ghost(t): Ghost<Seq<char>>, input: I) -> (r: ParseResult<I, Vec<Q::Output>>)
    requires
        reads_literal(p.parser, t),
        p.count == 1,
    ensures
        outcome(r, literal_step(t, input.items())),
{
    let ghost s = input.items();
    proof {
        reveal_with_fuel(crate::repeat::count_pre, 2);
    }
    let r = p.parse(input);
    proof {
        if r is Ok {
            let (rest, v) = r->Ok_0;
            let m = choose|m: Seq<char>| #[trigger] p.parser.accepts(s, m, v@[0]) && chain(p.parser, m, v@.drop_first(), rest.items());
        } else {
            let e = r->Err_0;
            let (xs, m) = choose|xs: Seq<Q::Output>, m: Seq<char>| xs.len() < p.count && #[trigger] chain(p.parser, s, xs, m) && p.parser.rejects(m, e);
        }
    }
    r
}

/// Reads `x`s up to a `z`, leaving the `z`.
fn read_till<I: Input<Item = char>>(input: I) -> (r: ParseResult<I, Vec<char>>)
    ensures
        outcome(r, till_step('x', 'z', input.items())),
{
    let p = char('x').many_till(char('z'));
    let ghost s = input.items();
    proof {
        lemma_char_reads_literal::<I>(p.parser);
        lemma_char_reads_literal::<I>(p.end);
        assert forall|t: Seq<char>, m: Seq<char>, x: char| #[trigger] p.parser.accepts(t, m, x) implies m.len() < t.len() by {
            lemma_literal_prefix(seq!['x'], t);
        }
        assert forall|t: Seq<char>| #[trigger] p.parse_pre(t) by {
            lemma_shrinking_till_pre(p.parser, p.end, t);
        }
    }
    let r = p.parse(input);
    proof {
        if r is Ok {
            let (rest, v) = r->Ok_0;
            let rs = rest.items();
            let (m, y) = choose|m: Seq<char>, y: char| #[trigger] p.end.accepts(rs, m, y);
            lemma_till_chain_is_chain(p.parser, p.end, s, v@, rs);
            lemma_literal_prefix(seq!['x'], rs);
            lemma_literal_prefix(seq!['z'], rs);
            lemma_literal_chain(p.parser, seq!['x'], s, v@, rs);
        } else {
            let e = r->Err_0;
            let (xs, m) = choose|xs: Seq<char>, m: Seq<char>| #[trigger] till_chain(p.parser, p.end, s, xs, m) && (exists|e1: ParseErr| #[trigger] p.end.rejects(m, e1)) && p.parser.rejects(m, e);
            let e1 = choose|e1: ParseErr| #[trigger] p.end.rejects(m, e1);
            lemma_till_chain_is_chain(p.parser, p.end, s, xs, m);
            lemma_literal_prefix(seq!['x'], m);
            lemma_literal_prefix(seq!['z'], m);
            lemma_literal_chain(p.parser, seq!['x'], s, xs, m);
        }
    }
    r
}

/// Reads `y` and `z` in turn, one or more times.
fn read_end_by1<I: Input<Item = char>>(input: I) -> (r: ParseResult<I, Vec<char>>)
    ensures
        outcome(r, end_by1_step('y', 'z', input.items())),
{
    let p = char('y').end_by_1(char('z'));
    let ghost s = input.items();
    let ghost q = And { f: p.parser, g: p.sep };
    let ghost yz = seq!['y', 'z'];
    proof {
        lemma_char_reads_literal::<I>(p.parser);
        lemma_char_reads_literal::<I>(p.sep);
        lemma_sequence_reads_literal(p.parser, p.sep, seq!['y'], seq!['z']);
        assert(seq!['y'] + seq!['z'] =~= yz);
        assert forall|t: Seq<char>| crate::repeat::end_tail_pre(p.parser, p.sep, t) by {
            lemma_literal_iter_pre(q, yz, t);
        }
    }
    let r = p.parse(input);
    proof {
        if r is Ok {
            let (rest, v) = r->Ok_0;
            let rs = rest.items();
            let ys = choose|ys: Seq<(char, char)>| #[trigger] chain(q, s, ys, rs) && v@ == firsts(ys);
            let e = choose|e: ParseErr| #[trigger] p.parser.rejects(rs, e);
            lemma_literal_prefix(yz, rs);
            lemma_literal_chain(q, yz, s, ys, rs);
            assert(ys.len() > 0);
            let m = choose|m: Seq<char>| #[trigger] q.accepts(s, m, ys[0]) && chain(q, m, ys.drop_first(), rs);
        } else {
            let e = r->Err_0;
            if p.parser.rejects(s, e) {
                assert(q.rejects(s, e));
            } else {
                let (ys, m2) = choose|ys: Seq<(char, char)>, m2: Seq<char>| #[trigger] chain(q, s, ys, m2) && exists|m3: Seq<char>, x: char| #[trigger] p.parser.accepts(m2, m3, x) && p.sep.rejects(m3, e);
                let (m3, x) = choose|m3: Seq<char>, x: char| #[trigger] p.parser.accepts(m2, m3, x) && p.sep.rejects(m3, e);
                assert(q.rejects(m2, e));
                lemma_literal_prefix(yz, m2);
                lemma_literal_chain(q, yz, s, ys, m2);
                if ys.len() > 0 {
                    let m = choose|m: Seq<char>| #[trigger] q.accepts(s, m, ys[0]) && chain(q, m, ys.drop_first(), m2);
                }
            }
        }
    }
    r
}

/// Part d.
fn run_part_d<I: Input<Item = char>>(input: I) -> (r: ParseResult<I, ()>)
    ensures
        outcome(r, part_d(input.items())),
{
    let yx = char('y').seq(char('x')).not_followed_by(eof::<I>());
    let xy = char('x').seq(char('y')).many();
    let yz = char('y').seq(char('z')).count(1);
    let ghost t_yx = seq!['y', 'x'];
    let ghost t_xy = seq!['x', 'y'];
    let ghost t_yz = seq!['y', 'z'];
    proof {
        lemma_char_reads_literal::<I>(yx.parser.a);
        lemma_char_reads_literal::<I>(yx.parser.b);
        lemma_sequence_reads_literal(yx.parser.a, yx.parser.b, seq!['y'], seq!['x']);
        assert(seq!['y'] + seq!['x'] =~= seq!['y', 'x']);
        lemma_char_reads_literal::<I>(xy.parser.a);
        lemma_char_reads_literal::<I>(xy.parser.b);
        lemma_sequence_reads_literal(xy.parser.a, xy.parser.b, seq!['x'], seq!['y']);
        assert(seq!['x'] + seq!['y'] =~= seq!['x', 'y']);
        lemma_char_reads_literal::<I>(yz.parser.a);
        lemma_char_reads_literal::<I>(yz.parser.b);
        lemma_sequence_reads_literal(yz.parser.a, yz.parser.b, seq!['y'], seq!['z']);
        assert(seq!['y'] + seq!['z'] =~= seq!['y', 'z']);
    }
    let i = match run_not_last(&yx, Ghost(t_yx), input) {
        Ok((i, _)) => i,
        Err(e) => return Err(e),
    };
    let i = match run_many_literal(&xy, Ghost(t_xy), i) {
        Ok((i, _)) => i,
        Err(e) => return Err(e),
    };
    let i = match run_count_once(&yz, Ghost(t_yz), i) {
        Ok((i, _)) => i,
        Err(e) => return Err(e),
    };
    let i = match read_till(i) {
        Ok((i, _)) => i,
        Err(e) => return Err(e),
    };
    match read_end_by1(i) {
        Ok((i, _)) => Ok((i, ())),
        Err(e) => Err(e),
    }
}

/// A function that writes `a`, a space and its argument.
fn joiner(a: char) -> (g: impl Fn(char) -> String)
    ensures
        forall|b: char| call_requires(g, (b,)),
{
    move |b: char| -> (t: String)
        ensures
            t@ == seq![a, ' ', b],
        {
            let mut t = String::new();
            t.push(a);
            t.push(' ');
            t.push(b);
            assert(t@ =~= seq![a, ' ', b]);
            t
        }
}

/// The second of two values.
fn second(_a: char, b: char) -> (r: char)
    ensures
        r == b,
{
    id(b)
}

/// Runs `p`, which reads the literal `t` if it comes and never fails.
fn run_opt_literal<I: Input<Item = char>, Q: Parser<I>>(p: &Optional<Q>, Ghost(t): Ghost<Seq<char>>, input: I) -> (r: ParseResult<I, Option<Q::Output>>)
    requires
        reads_literal(p.parser, t),
    ensures
        r matches Ok((rest, _)) && rest.items() == opt_literal(t, input.items()),
{
    p.parse(input)
}

/// The leading part of the closing group, which never gets past its
/// `end_by` and so gives `None` without reading.
proof fn lemma_blank_total<I: Input, P: Parser<I>, A: Parser<I>, B: Parser<I>, C: Parser<I>>(
    p: Optional<EndBy<SepEndBy<SepBy<P, A>, B>, C>>,
)
    requires
        total(p.parser.parser.parser.parser),
        reads_front(p.parser.parser.parser.parser),
        total(p.parser.parser.parser.sep),
        reads_front(p.parser.parser.parser.sep),
        total(p.parser.parser.sep),
        reads_front(p.parser.parser.sep),
        total(p.parser.sep),
        forall|t: Seq<I::Item>, m: Seq<I::Item>, x: A::Output| #[trigger] p.parser.parser.parser.sep.accepts(t, m, x) ==> m.len() < t.len(),
        forall|t: Seq<I::Item>, m: Seq<I::Item>, x: B::Output| #[trigger] p.parser.parser.sep.accepts(t, m, x) ==> m.len() < t.len(),
        forall|t: Seq<I::Item>, m: Seq<I::Item>, x: C::Output| #[trigger] p.parser.sep.accepts(t, m, x) ==> m.len() < t.len(),
    ensures
        total(p),
        forall|t: Seq<I::Item>, rest: Seq<I::Item>, o: Option<Vec<Vec<Vec<P::Output>>>>| #[trigger] p.accepts(t, rest, o) ==> rest == t,
{
    let sb = p.parser.parser.parser;
    let se = p.parser.parser;
    let eb = p.parser;
    let q1 = Sequence { a: sb.sep, b: sb.parser };
    assert forall|t: Seq<I::Item>, m: Seq<I::Item>, x: P::Output| #[trigger] q1.accepts(t, m, x) implies m.len() < t.len() by {
        let (m1, y) = choose|m1: Seq<I::Item>, y: A::Output| #[trigger] sb.sep.accepts(t, m1, y) && #[trigger] sb.parser.accepts(m1, m, x);
    }
    assert forall|t: Seq<I::Item>| #[trigger] sb.parse_pre(t) by {
        assert forall|m: Seq<I::Item>| crate::repeat::sep_tail_pre(sb.parser, sb.sep, m) by {
            lemma_shrinking_iter_pre(q1, m);
        }
    }
    lemma_repeat_reads_front(sb.parser, sb.sep, 0);
    let q2 = And { f: sb, g: se.sep };
    assert forall|t: Seq<I::Item>, m: Seq<I::Item>, x: (Vec<P::Output>, B::Output)| #[trigger] q2.accepts(t, m, x) implies m.len() < t.len() by {
        let m1 = choose|m1: Seq<I::Item>| #[trigger] sb.accepts(t, m1, x.0) && se.sep.accepts(m1, m, x.1);
    }
    assert forall|t: Seq<I::Item>| #[trigger] se.parse_pre(t) by {
        lemma_shrinking_iter_pre(q2, t);
    }
    lemma_repeat_reads_front(sb, se.sep, 0);
    let q3 = And { f: se, g: eb.sep };
    assert forall|t: Seq<I::Item>, m: Seq<I::Item>, x: (Vec<Vec<P::Output>>, C::Output)| #[trigger] q3.accepts(t, m, x) implies m.len() < t.len() by {
        let m1 = choose|m1: Seq<I::Item>| #[trigger] se.accepts(t, m1, x.0) && eb.sep.accepts(m1, m, x.1);
    }
    assert forall|t: Seq<I::Item>| #[trigger] p.parse_pre(t) by {
        lemma_shrinking_iter_pre(q3, t);
    }
}

/// Runs the leading part of the closing group.
fn run_blank<I: Input, P: Parser<I>, A: Parser<I>, B: Parser<I>, C: Parser<I>>(
    p: &Optional<EndBy<SepEndBy<SepBy<P, A>, B>, C>>,
    input: I,
) -> (r: ParseResult<I, Option<Vec<Vec<Vec<P::Output>>>>>)
    requires
        total(*p),
        forall|t: Seq<I::Item>, rest: Seq<I::Item>, o: Option<Vec<Vec<Vec<P::Output>>>>| #[trigger] p.accepts(t, rest, o) ==> rest == t,
    ensures
        r matches Ok((rest, _)) && rest.items() == input.items(),
{
    p.parse(input)
}

/// A part that reads nothing and never fails, then two optional readers of
/// the literal `t`.
proof fn lemma_group<I: Input<Item = char>, O, B: Parser<I>, Q1: Parser<I>, Q2: Parser<I, Output = O>>(
    p: Sequence<Sequence<B, Optional<Q1>>, Optional<Q2>>,
    t: Seq<char>,
)
    requires
        total(p.a.a),
        forall|s: Seq<char>, rest: Seq<char>, o: B::Output| #[trigger] p.a.a.accepts(s, rest, o) ==> rest == s,
        forall|s: Seq<char>, e: ParseErr| !#[trigger] p.a.a.rejects(s, e),
        reads_literal(p.a.b.parser, t),
        reads_literal(p.b.parser, t),
    ensures
        total(p),
        forall|s: Seq<char>, rest: Seq<char>, o: Option<O>|
            #[trigger] p.accepts(s, rest, o) ==> rest == opt_literal(t, opt_literal(t, s)),
        forall|s: Seq<char>, e: ParseErr| !#[trigger] p.rejects(s, e),
{
    assert forall|s: Seq<char>, rest: Seq<char>, o: Option<O>| #[trigger] p.accepts(s, rest, o) implies rest == opt_literal(t, opt_literal(t, s)) by {
        let (m, x) = choose|m: Seq<char>, x: Option<Q1::Output>| #[trigger] p.a.accepts(s, m, x) && #[trigger] p.b.accepts(m, rest, o);
        let (m0, y) = choose|m0: Seq<char>, y: B::Output| #[trigger] p.a.a.accepts(s, m0, y) && #[trigger] p.a.b.accepts(m0, m, x);
    }
}

/// The closing group: spaces separated by `!`, separated by `@`, ended by
/// `#`, if that can be read (it cannot), then `ab` read two ways, each if
/// it comes.
fn group<I: Input<Item = char>>() -> (p: impl Parser<I, Output = Option<char>>)
    ensures
        total(p),
        forall|t: Seq<char>, rest: Seq<char>, o: Option<char>| #[trigger] p.accepts(t, rest, o) ==> rest == group_e(t),
        forall|t: Seq<char>, e: ParseErr| !#[trigger] p.rejects(t, e),
{
    let x = char('a').map(joiner).ap(char('b')).void().optional();
    let y = lift_a_2(second, char('a'), char('b')).optional();
    let blank = char(' ').skip_many().sep_by(char('!')).sep_end_by(char('@')).end_by(char('#')).optional();
    proof {
        let sp = blank.parser.parser.parser.parser;
        lemma_char_refines::<I>(sp.parser);
        assert(progresses(char_fn(' ')));
        lemma_skip_many_refines(sp, char_fn(' '), id_view());
        lemma_chars_read_front::<I>(AnyChar::<I>(std::marker::PhantomData), sp.parser);
        lemma_repeat_reads_front(sp.parser, sp.parser, 0);
        lemma_char_refines::<I>(blank.parser.parser.parser.sep);
        lemma_char_refines::<I>(blank.parser.parser.sep);
        lemma_char_refines::<I>(blank.parser.sep);
        lemma_chars_read_front::<I>(AnyChar::<I>(std::marker::PhantomData), blank.parser.parser.parser.sep);
        lemma_chars_read_front::<I>(AnyChar::<I>(std::marker::PhantomData), blank.parser.parser.sep);
        lemma_blank_total(blank);

        let ap = x.parser.parser;
        lemma_char_reads_literal::<I>(ap.pf.parser);
        lemma_char_reads_literal::<I>(ap.pa);
        lemma_mapped_reads_literal(ap.pf, seq!['a']);
        lemma_ap_reads_literal(ap, seq!['a'], seq!['b']);
        lemma_void_reads_literal(x.parser, seq!['a'] + seq!['b']);
        lemma_char_reads_literal::<I>(y.parser.pa);
        lemma_char_reads_literal::<I>(y.parser.pb);
        lemma_lift_a2_reads_literal(y.parser, seq!['a'], seq!['b']);
        assert(seq!['a'] + seq!['b'] =~= seq!['a', 'b']);
    }
    let p = blank.seq(x).seq(y);
    proof {
        lemma_group::<I, char, _, _, _>(p, seq!['a', 'b']);
    }
    p
}

/// Runs the closing group twice over.
fn run_groups<I: Input<Item = char>, P: Parser<I>, Q: Parser<I>>(p: &Sequence<P, Q>, input: I) -> (r: ParseResult<I, Q::Output>)
    requires
        total(p.a),
        total(p.b),
        forall|t: Seq<char>, rest: Seq<char>, o: P::Output| #[trigger] p.a.accepts(t, rest, o) ==> rest == group_e(t),
        forall|t: Seq<char>, rest: Seq<char>, o: Q::Output| #[trigger] p.b.accepts(t, rest, o) ==> rest == group_e(t),
        forall|t: Seq<char>, e: ParseErr| !#[trigger] p.a.rejects(t, e),
        forall|t: Seq<char>, e: ParseErr| !#[trigger] p.b.rejects(t, e),
    ensures
        r matches Ok((rest, _)) && rest.items() == group_e(group_e(input.items())),
{
    p.parse(input)
}

/// The two characters of `t`, each between single quotes.
fn show_pair(t: (char, char)) -> (s: String)
    ensures
        s@ == shown_pair(t),
{
    let mut s = String::new();
    s.push('\'');
    s.push(t.0);
    s.push('\'');
    s.push('\'');
    s.push(t.1);
    s.push('\'');
    assert(s@ =~= shown_pair(t));
    s
}

/// Runs the demonstration grammar: `ab` or `cd`, then the quoted `e` in
/// brackets, parts b, c and d, and the closing group twice; gives the pair
/// read first, each character between single quotes.
pub fn foo<I: Input<Item = char>>(input: I) -> (r: ParseResult<I, String>)
    ensures
        match r {
            Ok((rest, out)) => foo_spec(input.items()) == Ok::<(Seq<char>, Seq<char>), Stop>(
                (rest.items(), out@),
            ),
            Err(e) => foo_spec(input.items()) matches Err(st) && stops_with(st, e),
        },
{
    let (i, t) = match read_pair(input) {
        Ok(x) => x,
        Err(e) => return Err(e),
    };
    let i = match read_quoted_e(i) {
        Ok((i, _)) => i,
        Err(e) => return Err(e),
    };
    let i = match run_part_b(i) {
        Ok((i, _)) => i,
        Err(e) => return Err(e),
    };
    let i = match run_part_c(i) {
        Ok((i, _)) => i,
        Err(e) => return Err(e),
    };
    let i = match run_part_d(i) {
        Ok((i, _)) => i,
        Err(e) => return Err(e),
    };
    let groups = group::<I>().seq(group::<I>());
    let (i, _) = match run_groups(&groups, i) {
        Ok(x) => x,
        Err(e) => return Err(e),
    };
    Ok((i, show_pair(t)))
}

} // verus!

