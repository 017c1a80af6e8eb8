//! A JSON reader written with the combinators.
//!
//! Each piece of the grammar has a spec function over characters that says
//! what it reads (the characters left over and the value), or `None` where
//! it fails; the executable pieces are proved to agree with them.
use vstd::prelude::*;
use crate::chars::{char, lemma_literal_prefix, match_literal, string};
use crate::laws::{is_suffix, lemma_suffix_drop_first, lemma_suffix_refl, lemma_suffix_trans};
use crate::combinators::{lemma_satisfy_rejects, lift, lift_a_2, satisfy};
use crate::parser::{any_char, Input, ParseErr, ParseResult, Parser};
use crate::laws::lemma_never_fail;
use crate::refine::{
    fn_errors, lemma_bracket_errors, lemma_lift_a2_errors, lemma_lift_errors, lemma_sep_by_errors,
    lemma_seq_errors, lemma_surround_errors, sep_iterate_err, any_char_fn, between_fn, char_fn, const_fn, filter_fn, fn_refines, id_view, iterate,
    lemma_any_char_refines, lemma_bracket_below, lemma_bracket_refines, lemma_char_refines,
    lemma_iterate_len, lemma_lift_a2_below, lemma_lift_a2_refines, lemma_lift_below,
    lemma_lift_refines, lemma_many1_refines, lemma_many_refines, lemma_map_below,
    lemma_map_refines, lemma_map_rejects, lemma_optional_refines, lemma_or_below,
    lemma_or_refines, lemma_or_rejects, lemma_refines_rejects, lemma_satisfy_refines,
    lemma_sep_by_below, lemma_sep_by_refines, lemma_seq_below, lemma_seq_refines,
    lemma_seq_rejects_at, lemma_skip_many_refines, lemma_string_refines, lemma_surround_refines,
    lemma_total_below, literal_fn, map_fn, opt_fn, opt_view, or_fn, pair_fn, parse_refined,
    progresses, sep_by_fn, sep_iterate, seq_view, shrinks, string_view, then_fn, unit_view,
};

verus! {

/// A value that stands for JSON's `null`.
pub struct Null {}

/// A JSON value. A number keeps the text it was written with; an object keeps
/// its members in order, each key once.
pub enum Json {
    JObject { value: Vec<(String, Json)> },
    JArray { value: Vec<Json> },
    JNumber { value: String },
    JString { value: String },
    JBool { value: bool },
    JNull { value: Null },
}

/// The mathematical form of a JSON value.
pub enum JsonValue {
    Object(Seq<(Seq<char>, JsonValue)>),
    Array(Seq<JsonValue>),
    Number(Seq<char>),
    Str(Seq<char>),
    Bool(bool),
    Null,
}

/// The mathematical form of a `Json` value.
pub open spec fn json_view(j: Json) -> JsonValue
    decreases j,
{
    match j {
        Json::JObject { value } => JsonValue::Object(
            Seq::new(
                value@.len(),
                |k: int|
                    if 0 <= k < value@.len() {
                        proof {
                            assert(decreases_to!(value => value@));
                            assert(decreases_to!(value@ => value@[k]));
                            assert(decreases_to!(value@[k] => value@[k].1));
                        }
                        (value@[k].0@, json_view(value@[k].1))
                    } else {
                        (Seq::empty(), JsonValue::Null)
                    },
            ),
        ),
        Json::JArray { value } => JsonValue::Array(
            Seq::new(
                value@.len(),
                |k: int|
                    if 0 <= k < value@.len() {
                        proof {
                            assert(decreases_to!(value => value@));
                            assert(decreases_to!(value@ => value@[k]));
                        }
                        json_view(value@[k])
                    } else {
                        JsonValue::Null
                    },
            ),
        ),
        Json::JNumber { value } => JsonValue::Number(value@),
        Json::JString { value } => JsonValue::Str(value@),
        Json::JBool { value } => JsonValue::Bool(value),
        Json::JNull { .. } => JsonValue::Null,
    }
}

impl View for Json {
    type V = JsonValue;

    open spec fn view(&self) -> JsonValue {
        json_view(*self)
    }
}

// ---------------------------------------------------------------- whitespace

pub open spec fn is_ws(c: char) -> bool {
    c == ' ' || c == '\t' || c == '\n' || c == '\r'
}

pub open spec fn ws_pred() -> spec_fn(char) -> bool {
    |c: char| is_ws(c)
}

/// `s` without its leading whitespace.
pub open spec fn skip_ws(s: Seq<char>) -> Seq<char>
    decreases s.len(),
{
    if s.len() > 0 && is_ws(s[0]) {
        skip_ws(s.drop_first())
    } else {
        s
    }
}

pub open spec fn ws_fn() -> spec_fn(Seq<char>) -> Option<(Seq<char>, ())> {
    |s: Seq<char>| Some((skip_ws(s), ()))
}

proof fn lemma_skip_ws_iterate(s: Seq<char>)
    ensures
        iterate(filter_fn(any_char_fn(), ws_pred()), s).0 == skip_ws(s),
    decreases s.len(),
{
    if s.len() > 0 && is_ws(s[0]) {
        lemma_skip_ws_iterate(s.drop_first());
    }
}

fn is_ws_char(c: &char) -> (b: bool)
    ensures
        b == is_ws(*c),
{
    *c == ' ' || *c == '\t' || *c == '\n' || *c == '\r'
}

/// Skips whitespace; never fails.
pub fn ws<I: Input<Item = char>>(input: I) -> (r: ParseResult<I, ()>)
    ensures
        r matches Ok((rest, _)) && rest.items() == skip_ws(input.items()),
{
    let p = satisfy(any_char(), is_ws_char).skip_many();
    proof {
        lemma_any_char_refines::<I>(p.parser.parser);
        lemma_satisfy_refines(p.parser, any_char_fn(), id_view(), ws_pred());
        assert(progresses(filter_fn(any_char_fn(), ws_pred())));
        lemma_skip_many_refines(p, filter_fn(any_char_fn(), ws_pred()), id_view());
        lemma_skip_ws_iterate(input.items());
    }
    p.parse(input)
}

// ------------------------------------------------------------ structural marks

/// What is left after whitespace, the mark `c` and whitespace again, or `None`
/// where `c` is not the first character after the whitespace.
pub open spec fn token(c: char, s: Seq<char>) -> Option<Seq<char>> {
    let t = skip_ws(s);
    if t.len() > 0 && t[0] == c {
        Some(skip_ws(t.drop_first()))
    } else {
        None
    }
}

pub open spec fn token_fn(c: char) -> spec_fn(Seq<char>) -> Option<(Seq<char>, ())> {
    |s: Seq<char>| match token(c, s) {
        Some(r) => Some((r, ())),
        None => None,
    }
}

/// The error reading the mark `c` gives.
pub open spec fn token_err(c: char, s: Seq<char>) -> ParseErr {
    if skip_ws(s).len() == 0 {
        ParseErr::EOF()
    } else {
        ParseErr::Expected(c)
    }
}

proof fn lemma_ws_fn_refines<I: Input<Item = char>>()
    ensures
        fn_refines(ws::<I>, ws_fn(), unit_view()),
        forall|i: I| call_requires(ws::<I>, (i,)),
{
}

/// Whitespace, the mark `c`, whitespace.
fn structural<I: Input<Item = char>>(c: char, input: I) -> (r: ParseResult<I, ()>)
    ensures
        match r {
            Ok((rest, _)) => token(c, input.items()) == Some(rest.items()),
            Err(e) => token(c, input.items()) is None && e == token_err(c, input.items()),
        },
{
    let p = lift(ws).seq(char(c)).seq(lift(ws));
    let ghost s = input.items();
    proof {
        lemma_ws_fn_refines::<I>();
        lemma_lift_refines(p.a.a, ws_fn(), unit_view());
        lemma_lift_refines(p.b, ws_fn(), unit_view());
        lemma_char_refines::<I>(p.a.b);
        lemma_seq_refines(p.a, ws_fn(), unit_view(), char_fn(c), id_view());
        lemma_seq_refines(p, then_fn(ws_fn(), char_fn(c)), id_view(), ws_fn(), unit_view());
    }
    let r = p.parse(input);
    proof {
        let f = then_fn(then_fn(ws_fn(), char_fn(c)), ws_fn());
        assert(f(s) == token_fn(c)(s));
        if r is Err {
            let e = r->Err_0;
            lemma_seq_rejects_at(p, then_fn(ws_fn(), char_fn(c)), id_view(), ws_fn(), unit_view(), s, e);
            if !p.a.rejects(s, e) {
                let m = then_fn(ws_fn(), char_fn(c))(s)->Some_0.0;
                lemma_refines_rejects(p.b, ws_fn(), unit_view(), m, e);
            }
            lemma_seq_rejects_at(p.a, ws_fn(), unit_view(), char_fn(c), id_view(), s, e);
            if p.a.a.rejects(s, e) {
                lemma_refines_rejects(p.a.a, ws_fn(), unit_view(), s, e);
            }
            let m = skip_ws(s);
            assert(m == skip_ws(s));
            assert(token(c, s) is None);
            assert(e == token_err(c, s));
        } else {
            let rest = r->Ok_0.0;
            assert(p.accepts(s, rest.items(), r->Ok_0.1));
            assert(token(c, s) == Some(rest.items()));
        }
    }
    r
}

pub fn begin_array<I: Input<Item = char>>(input: I) -> (r: ParseResult<I, ()>)
    ensures
        match r {
            Ok((rest, _)) => token('[', input.items()) == Some(rest.items()),
            Err(e) => token('[', input.items()) is None && e == token_err('[', input.items()),
        },
{
    structural('[', input)
}

pub fn end_array<I: Input<Item = char>>(input: I) -> (r: ParseResult<I, ()>)
    ensures
        match r {
            Ok((rest, _)) => token(']', input.items()) == Some(rest.items()),
            Err(e) => token(']', input.items()) is None && e == token_err(']', input.items()),
        },
{
    structural(']', input)
}

pub fn begin_object<I: Input<Item = char>>(input: I) -> (r: ParseResult<I, ()>)
    ensures
        match r {
            Ok((rest, _)) => token('{', input.items()) == Some(rest.items()),
            Err(e) => token('{', input.items()) is None && e == token_err('{', input.items()),
        },
{
    structural('{', input)
}

pub fn end_object<I: Input<Item = char>>(input: I) -> (r: ParseResult<I, ()>)
    ensures
        match r {
            Ok((rest, _)) => token('}', input.items()) == Some(rest.items()),
            Err(e) => token('}', input.items()) is None && e == token_err('}', input.items()),
        },
{
    structural('}', input)
}

pub fn name_separator<I: Input<Item = char>>(input: I) -> (r: ParseResult<I, ()>)
    ensures
        match r {
            Ok((rest, _)) => token(':', input.items()) == Some(rest.items()),
            Err(e) => token(':', input.items()) is None && e == token_err(':', input.items()),
        },
{
    structural(':', input)
}

pub fn value_separator<I: Input<Item = char>>(input: I) -> (r: ParseResult<I, ()>)
    ensures
        match r {
            Ok((rest, _)) => token(',', input.items()) == Some(rest.items()),
            Err(e) => token(',', input.items()) is None && e == token_err(',', input.items()),
        },
{
    structural(',', input)
}

/// The double quote that opens and closes a string.
pub fn quotation_mark<I: Input<Item = char>>(input: I) -> (r: ParseResult<I, ()>)
    ensures
        match r {
            Ok((rest, _)) => {
                &&& input.items().len() > 0
                &&& input.items()[0] == '"'
                &&& rest.items() == input.items().drop_first()
            },
            Err(e) => if input.items().len() == 0 {
                e == ParseErr::EOF()
            } else {
                input.items()[0] != '"' && e == ParseErr::Expected('"')
            },
        },
{
    char('"').void().parse(input)
}

// ----------------------------------------------------------------- literals

pub open spec fn literal_rest(t: Seq<char>, s: Seq<char>) -> Option<Seq<char>> {
    match match_literal(t, s) {
        Ok(r) => Some(r),
        Err(_) => None,
    }
}

/// Reads `null`.
pub fn jnull<I: Input<Item = char>>(input: I) -> (r: ParseResult<I, ()>)
    ensures
        match r {
            Ok((rest, _)) => match_literal("null"@, input.items()) == Ok::<Seq<char>, ParseErr>(
                rest.items(),
            ),
            Err(e) => match_literal("null"@, input.items()) == Err::<Seq<char>, ParseErr>(e),
        },
{
    string(String::from_str("null")).void().parse(input)
}

/// What reading a boolean gives: `true` or `false` and what is left.
pub open spec fn bool_spec(s: Seq<char>) -> Option<(Seq<char>, bool)> {
    match match_literal("true"@, s) {
        Ok(r) => Some((r, true)),
        Err(_) => match match_literal("false"@, s) {
            Ok(r) => Some((r, false)),
            Err(_) => None,
        },
    }
}

/// Reads `true` or `false`.
pub fn jbool<I: Input<Item = char>>(input: I) -> (r: ParseResult<I, bool>)
    ensures
        match r {
            Ok((rest, b)) => bool_spec(input.items()) == Some((rest.items(), b)),
            Err(e) => {
                &&& bool_spec(input.items()) is None
                &&& match_literal("false"@, input.items()) == Err::<Seq<char>, ParseErr>(e)
            },
        },
{
    let yes = |_s: String| -> (b: bool)
        ensures
            b,
        { true };
    let no = |_s: String| -> (b: bool)
        ensures
            !b,
        { false };
    let p = string(String::from_str("true")).map(yes).or(string(String::from_str("false")).map(no));
    let ghost s = input.items();
    let ghost ft = map_fn(literal_fn("true"@), const_fn::<Seq<char>, bool>(true));
    let ghost ff = map_fn(literal_fn("false"@), const_fn::<Seq<char>, bool>(false));
    proof {
        lemma_string_refines::<I>(p.f.parser);
        lemma_string_refines::<I>(p.g.parser);
        assert(forall|a: String| call_requires(yes, (a,)));
        assert(forall|a: String| call_requires(no, (a,)));
        lemma_map_refines(p.f, literal_fn("true"@), string_view(), const_fn::<Seq<char>, bool>(true), id_view());
        lemma_map_refines(p.g, literal_fn("false"@), string_view(), const_fn::<Seq<char>, bool>(false), id_view());
        lemma_or_refines(p, ft, ff, id_view());
        assert(or_fn(ft, ff)(s) == bool_spec(s));
    }
    let r = p.parse(input);
    proof {
        if r is Err {
            let e = r->Err_0;
            lemma_or_rejects(p, s, e);
            lemma_map_rejects(p.g, s, e);
        }
    }
    r
}

// ------------------------------------------------------------------ strings

/// A character that may stand in a string as it is.
pub open spec fn unescaped_char(c: char) -> bool {
    (0x20 <= c as u32 && c as u32 <= 0x21) || (0x23 <= c as u32 && c as u32 <= 0x5B) || (0x5D
        <= c as u32 && c as u32 <= 0x10FFFF)
}

pub open spec fn unescaped_pred() -> spec_fn(char) -> bool {
    |c: char| unescaped_char(c)
}

pub open spec fn is_hex(c: char) -> bool {
    ('0' <= c && c <= '9') || ('a' <= c && c <= 'f') || ('A' <= c && c <= 'F')
}

pub open spec fn hex_pred() -> spec_fn(char) -> bool {
    |c: char| is_hex(c)
}

/// The value of a hexadecimal digit.
pub open spec fn hex_val(c: char) -> u32 {
    if '0' <= c && c <= '9' {
        (c as u32 - '0' as u32) as u32
    } else if 'a' <= c && c <= 'f' {
        (c as u32 - 'a' as u32 + 10) as u32
    } else {
        (c as u32 - 'A' as u32 + 10) as u32
    }
}

/// The code a `\u` escape gives for its four digits. The digits are weighted
/// by `16 ^ 3`, `16 ^ 2`, `16 ^ 1` and `16 ^ 0`, where `^` is exclusive or:
/// 19, 18, 17 and 16.
pub open spec fn unicode_code(d: Seq<char>) -> u32 {
    (hex_val(d[0]) * 19 + hex_val(d[1]) * 18 + hex_val(d[2]) * 17 + hex_val(d[3]) * 16) as u32
}

/// Four hexadecimal digits, read as a character.
pub open spec fn unicode_spec(s: Seq<char>) -> Option<(Seq<char>, char)> {
    if s.len() >= 4 && is_hex(s[0]) && is_hex(s[1]) && is_hex(s[2]) && is_hex(s[3]) {
        Some((s.skip(4), unicode_code(s) as char))
    } else {
        None
    }
}

/// A backslash escape, read as the character it stands for.
pub open spec fn escape_spec(s: Seq<char>) -> Option<(Seq<char>, char)> {
    if s.len() >= 2 && s[0] == '\\' {
        let c = s[1];
        let t = s.skip(2);
        if c == '"' || c == '\\' || c == '/' {
            Some((t, c))
        } else if c == 'b' {
            Some((t, '\u{8}'))
        } else if c == 'f' {
            Some((t, '\u{c}'))
        } else if c == 'n' {
            Some((t, '\n'))
        } else if c == 'r' {
            Some((t, '\r'))
        } else if c == 't' {
            Some((t, '\t'))
        } else if c == 'u' {
            unicode_spec(t)
        } else {
            None
        }
    } else {
        None
    }
}

pub open spec fn escape_fn() -> spec_fn(Seq<char>) -> Option<(Seq<char>, char)> {
    |s: Seq<char>| escape_spec(s)
}

/// One character of a string's body: as it is, or escaped.
pub open spec fn string_char(s: Seq<char>) -> Option<(Seq<char>, char)> {
    if s.len() > 0 && unescaped_char(s[0]) {
        Some((s.drop_first(), s[0]))
    } else {
        escape_spec(s)
    }
}

pub open spec fn string_char_fn() -> spec_fn(Seq<char>) -> Option<(Seq<char>, char)> {
    |s: Seq<char>| string_char(s)
}

/// A string: a double quote, characters as long as they can be read, and a
/// double quote.
pub open spec fn string_spec(s: Seq<char>) -> Option<(Seq<char>, Seq<char>)> {
    if s.len() > 0 && s[0] == '"' {
        let (r, cs) = iterate(string_char_fn(), s.drop_first());
        if r.len() > 0 && r[0] == '"' {
            Some((r.drop_first(), cs))
        } else {
            None
        }
    } else {
        None
    }
}

/// The error reading a double quote at the front of `t` gives.
pub open spec fn quote_error(t: Seq<char>) -> ParseErr {
    if t.len() == 0 {
        ParseErr::EOF()
    } else {
        ParseErr::Expected('"')
    }
}

/// The error reading a string gives: that of the opening double quote, or,
/// where there is one, that of the closing double quote after the
/// characters read.
pub open spec fn string_error(s: Seq<char>) -> ParseErr {
    if s.len() > 0 && s[0] == '"' {
        quote_error(iterate(string_char_fn(), s.drop_first()).0)
    } else {
        quote_error(s)
    }
}

pub open spec fn string_fn() -> spec_fn(Seq<char>) -> Option<(Seq<char>, Seq<char>)> {
    |s: Seq<char>| string_spec(s)
}

fn is_unescaped(c: &char) -> (b: bool)
    ensures
        b == unescaped_char(*c),
{
    let u = *c as u32;
    (u >= 0x20 && u <= 0x21) || (u >= 0x23 && u <= 0x5B) || (u >= 0x5D && u <= 0x10FFFF)
}

fn is_ascii_hexdigit(c: &char) -> (b: bool)
    ensures
        b == is_hex(*c),
{
    ('0' <= *c && *c <= '9') || ('a' <= *c && *c <= 'f') || ('A' <= *c && *c <= 'F')
}

/// The value of the hexadecimal digit `c`.
fn hex_value(c: char) -> (v: u32)
    requires
        is_hex(c),
    ensures
        v == hex_val(c),
        v < 16,
{
    if '0' <= c && c <= '9' {
        c as u32 - '0' as u32
    } else if 'a' <= c && c <= 'f' {
        c as u32 - 'a' as u32 + 10
    } else {
        c as u32 - 'A' as u32 + 10
    }
}

proof fn lemma_quotation_mark_refines<I: Input<Item = char>>()
    ensures
        fn_refines(quotation_mark::<I>, quote_fn(), unit_view()),
        forall|i: I| call_requires(quotation_mark::<I>, (i,)),
{
}

pub open spec fn quote_fn() -> spec_fn(Seq<char>) -> Option<(Seq<char>, ())> {
    |s: Seq<char>| if s.len() > 0 && s[0] == '"' { Some((s.drop_first(), ())) } else { None }
}

/// Four hexadecimal digits after `\u`.
fn unicode<I: Input<Item = char>>(i: I) -> (r: ParseResult<I, char>)
    ensures
        match r {
            Ok((rest, c)) => unicode_spec(i.items()) == Some((rest.items(), c)),
            Err(_) => unicode_spec(i.items()) is None,
        },
{
    let ghost s = i.items();
    let w3 = |c: char| -> (v: u32)
        requires
            is_hex(c),
        ensures
            v == hex_val(c) * 19,
        {
            assert(16u32 ^ 3u32 == 19u32) by (bit_vector);
            hex_value(c) * (16 ^ 3)
        };
    let d = satisfy(any_char(), is_ascii_hexdigit);
    proof {
        lemma_any_char_refines::<I>(d.parser);
        lemma_satisfy_refines(d, any_char_fn(), id_view(), hex_pred());
    }
    let (i, u1) = match d.parse(i) {
        Ok(r) => r,
        Err(e) => return Err(e),
    };
    let ghost m1 = i.items();
    let (i, u2) = match d.parse(i) {
        Ok(r) => r,
        Err(e) => return Err(e),
    };
    let ghost m2 = i.items();
    let (i, u3) = match d.parse(i) {
        Ok(r) => r,
        Err(e) => return Err(e),
    };
    let ghost m3 = i.items();
    let (i, u4) = match d.parse(i) {
        Ok(r) => r,
        Err(e) => return Err(e),
    };
    let v1 = w3(u1);
    assert(16u32 ^ 2u32 == 18u32) by (bit_vector);
    assert(16u32 ^ 1u32 == 17u32) by (bit_vector);
    assert(16u32 ^ 0u32 == 16u32) by (bit_vector);
    let v = v1 + hex_value(u2) * (16 ^ 2) + hex_value(u3) * (16 ^ 1) + hex_value(u4) * (16 ^ 0);
    proof {
        assert(s.len() >= 4);
        assert(m1 == s.drop_first());
        assert(u2 == s[1]);
        assert(u3 == s[2]);
        assert(u4 == s[3]);
        assert(i.items() =~= s.skip(4));
        assert(v == unicode_code(s));
    }
    Ok((i, std::char::from_u32(v).unwrap()))
}

/// A backslash escape.
fn escaped<I: Input<Item = char>>(i: I) -> (r: ParseResult<I, char>)
    ensures
        match r {
            Ok((rest, c)) => escape_spec(i.items()) == Some((rest.items(), c)),
            Err(_) => escape_spec(i.items()) is None,
        },
{
    let ghost s = i.items();
    let (i, c) = match char('\\').seq(any_char()).parse(i) {
        Ok(r) => r,
        Err(e) => return Err(e),
    };
    assert(i.items() =~= s.skip(2));
    if c == '"' || c == '\\' || c == '/' {
        Ok((i, c))
    } else if c == 'b' {
        Ok((i, '\u{8}'))
    } else if c == 'f' {
        Ok((i, '\u{c}'))
    } else if c == 'n' {
        Ok((i, '\n'))
    } else if c == 'r' {
        Ok((i, '\r'))
    } else if c == 't' {
        Ok((i, '\t'))
    } else if c == 'u' {
        unicode(i)
    } else {
        let mut msg = String::from_str("Unexpected char: '");
        msg.push(c);
        msg.push('\'');
        crate::combinators::unexpected(msg).parse(i)
    }
}

proof fn lemma_escaped_refines<I: Input<Item = char>>()
    ensures
        fn_refines(escaped::<I>, escape_fn(), id_view()),
        forall|i: I| call_requires(escaped::<I>, (i,)),
{
}

proof fn lemma_string_char_progress()
    ensures
        progresses(string_char_fn()),
{
}

/// Reads a string: its characters between double quotes, escapes replaced by
/// what they stand for.
pub fn jstring<I: Input<Item = char>>(input: I) -> (r: ParseResult<I, String>)
    ensures
        match r {
            Ok((rest, st)) => string_spec(input.items()) == Some((rest.items(), st@)),
            Err(e) => string_spec(input.items()) is None && e == string_error(input.items()),
        },
{
    let collect = |l: Vec<char>| -> (st: String)
        ensures
            st@ == l@,
        { crate::strings::chars_to_string(&l) };
    let unescaped = satisfy(any_char(), is_unescaped);
    let p = unescaped.or(lift(escaped)).many().surround(lift(quotation_mark)).map(collect);
    let ghost s = input.items();
    let ghost chf = or_fn(filter_fn(any_char_fn(), unescaped_pred()), escape_fn());
    let ghost body = |t: Seq<char>| Some(iterate(chf, t));
    proof {
        lemma_any_char_refines::<I>(p.parser.parser.parser.f.parser);
        lemma_satisfy_refines(p.parser.parser.parser.f, any_char_fn(), id_view(), unescaped_pred());
        lemma_escaped_refines::<I>();
        lemma_lift_refines(p.parser.parser.parser.g, escape_fn(), id_view());
        lemma_or_refines(p.parser.parser.parser, filter_fn(any_char_fn(), unescaped_pred()), escape_fn(), id_view());
        assert(chf =~= string_char_fn());
        lemma_string_char_progress();
        lemma_many_refines(p.parser.parser, chf, id_view());
        lemma_quotation_mark_refines::<I>();
        lemma_lift_refines(p.parser.surround, quote_fn(), unit_view());
        lemma_surround_refines(p.parser, body, seq_view(id_view()), quote_fn(), unit_view());
        assert forall|l: Vec<char>, st: String| #[trigger] call_ensures(p.func, (l,), st) implies string_view()(st) == id_view()(seq_view(id_view())(l)) by {
            assert(l@.map_values(id_view()) =~= l@);
        }
        assert(forall|l: Vec<char>| call_requires(p.func, (l,)));
        lemma_map_refines(p, between_fn(quote_fn(), body, quote_fn()), seq_view(id_view()), id_view(), string_view());
    }
    let ghost ff = map_fn(between_fn(quote_fn(), body, quote_fn()), id_view());
    assert(ff(s) == string_spec(s));
    let r = parse_refined::<I, String, _, Seq<char>>(&p, input, Ghost(ff), Ghost(string_view()));
    proof {
        if r is Err {
            let e = r->Err_0;
            assert(fn_errors(p.parser.surround.func, |t: Seq<char>, e1: ParseErr| e1 == quote_error(t)));
            lemma_lift_errors(p.parser.surround, |t: Seq<char>, e1: ParseErr| e1 == quote_error(t));
            lemma_map_rejects(p, s, e);
            lemma_never_fail(p.parser.parser.parser, p.parser.parser.parser, || ());
            lemma_surround_errors(p.parser, body, seq_view(id_view()), quote_fn(), unit_view(), |t: Seq<char>| quote_error(t), s, e);
        }
    }
    r
}

// ------------------------------------------------------------------ numbers

pub open spec fn is_digit(c: char) -> bool {
    '0' <= c && c <= '9'
}

pub open spec fn digit_pred() -> spec_fn(char) -> bool {
    |c: char| is_digit(c)
}

/// The number of decimal digits at the front of `s`.
pub open spec fn digit_run(s: Seq<char>) -> nat
    decreases s.len(),
{
    if s.len() > 0 && is_digit(s[0]) {
        1 + digit_run(s.drop_first())
    } else {
        0
    }
}

/// `e` is the error of reading a digit at the front of `t` where none is:
/// the end of the input, or the character that fails the test, named in
/// the message by its debug text.
pub open spec fn digit_error(t: Seq<char>, e: ParseErr) -> bool {
    if t.len() == 0 {
        e == ParseErr::EOF()
    } else {
        crate::combinators::unexpected_text(e, "Unexpected input: "@ + crate::combinators::char_debug_text(t[0]))
    }
}

/// `e` is the error of reading a number at the front of `s`: that of its
/// first digit, after an optional `-`.
pub open spec fn number_error(s: Seq<char>, e: ParseErr) -> bool {
    if s.len() > 0 && s[0] == '-' {
        digit_error(s.drop_first(), e)
    } else {
        digit_error(s, e)
    }
}

/// The length of the integer part at the front of `s`: a single `0`, or a
/// digit from 1 to 9 and the digits after it.
pub open spec fn int_len(s: Seq<char>) -> Option<nat> {
    if s.len() > 0 && s[0] == '0' {
        Some(1)
    } else if s.len() > 0 && '1' <= s[0] && s[0] <= '9' {
        Some(1 + digit_run(s.drop_first()))
    } else {
        None
    }
}

/// The length of a fraction at the front of `s`: a `.` and at least one digit.
pub open spec fn frac_len(s: Seq<char>) -> Option<nat> {
    if s.len() > 0 && s[0] == '.' && digit_run(s.drop_first()) > 0 {
        Some(1 + digit_run(s.drop_first()))
    } else {
        None
    }
}

/// The length of an exponent at the front of `s`: `e` or `E`, an optional
/// sign, and at least one digit.
pub open spec fn exp_len(s: Seq<char>) -> Option<nat> {
    if s.len() > 0 && (s[0] == 'e' || s[0] == 'E') {
        let t = s.drop_first();
        let k: nat = if t.len() > 0 && (t[0] == '-' || t[0] == '+') { 1 } else { 0 };
        if digit_run(t.skip(k as int)) > 0 {
            Some(1 + k + digit_run(t.skip(k as int)))
        } else {
            None
        }
    } else {
        None
    }
}

/// The length of a number at the front of `s`: an optional `-`, an integer
/// part, and an optional fraction and exponent where they can be read.
pub open spec fn number_len(s: Seq<char>) -> Option<nat> {
    let a: nat = if s.len() > 0 && s[0] == '-' { 1 } else { 0 };
    match int_len(s.skip(a as int)) {
        None => None,
        Some(b) => {
            let t = s.skip((a + b) as int);
            let f: nat = match frac_len(t) {
                Some(x) => x,
                None => 0,
            };
            let u = t.skip(f as int);
            let e: nat = match exp_len(u) {
                Some(x) => x,
                None => 0,
            };
            Some(a + b + f + e)
        },
    }
}

/// A number: the characters left over and the text of the number.
pub open spec fn number_spec(s: Seq<char>) -> Option<(Seq<char>, Seq<char>)> {
    match number_len(s) {
        Some(n) => Some((s.skip(n as int), s.take(n as int))),
        None => None,
    }
}

/// What a part read at the front of `s` of length `n` gives: the rest and the
/// text read.
pub open spec fn taken(s: Seq<char>, n: Option<nat>) -> Option<(Seq<char>, Seq<char>)> {
    match n {
        Some(k) => Some((s.skip(k as int), s.take(k as int))),
        None => None,
    }
}

proof fn lemma_digit_run(s: Seq<char>)
    ensures
        digit_run(s) <= s.len(),
        iterate(filter_fn(any_char_fn(), digit_pred()), s) == (
            s.skip(digit_run(s) as int),
            s.take(digit_run(s) as int),
        ),
    decreases s.len(),
{
    if s.len() > 0 && is_digit(s[0]) {
        lemma_digit_run(s.drop_first());
        assert(s.drop_first().skip(digit_run(s.drop_first()) as int) =~= s.skip(digit_run(s) as int));
        assert(seq![s[0]] + s.drop_first().take(digit_run(s.drop_first()) as int) =~= s.take(
            digit_run(s) as int,
        ));
    } else {
        assert(s.skip(0) =~= s);
        assert(s.take(0) =~= Seq::<char>::empty());
    }
}

fn is_digit_char(c: &char) -> (b: bool)
    ensures
        b == is_digit(*c),
{
    '0' <= *c && *c <= '9'
}

fn is_digit_1_9(c: &char) -> (b: bool)
    ensures
        b == ('1' <= *c && *c <= '9'),
{
    let u = *c as u32;
    u >= 0x31 && u <= 0x39
}

/// Reads one or more digits.
fn digits<I: Input<Item = char>>(i: I) -> (r: ParseResult<I, Vec<char>>)
    ensures
        match r {
            Ok((rest, d)) => digit_run(i.items()) > 0 && rest.items() == i.items().skip(
                digit_run(i.items()) as int,
            ) && d@ == i.items().take(digit_run(i.items()) as int),
            Err(_) => digit_run(i.items()) == 0,
        },
{
    let p = any_char().satisfy(is_digit_char).some();
    let ghost s = i.items();
    let ghost df = filter_fn(any_char_fn(), digit_pred());
    proof {
        lemma_any_char_refines::<I>(p.parser.parser);
        lemma_satisfy_refines(p.parser, any_char_fn(), id_view(), digit_pred());
        assert(progresses(df));
        lemma_many1_refines(p, df, id_view());
        lemma_digit_run(s);
        assert forall|v: Vec<char>| #[trigger] seq_view(id_view())(v) == v@ by {
            assert(v@.map_values(id_view()) =~= v@);
        }
    }
    parse_refined::<I, Vec<char>, _, Seq<char>>(&p, i, Ghost(|t: Seq<char>| if iterate(df, t).1.len() > 0 { Some(iterate(df, t)) } else { None }), Ghost(seq_view(id_view())))
}

/// A one-character string.
fn char_string(c: char) -> (t: String)
    ensures
        t@ == seq![c],
{
    let mut t = String::new();
    t.push(c);
    t
}

/// A fraction: `.` and one or more digits.
fn frac<I: Input<Item = char>>(i: I) -> (r: ParseResult<I, String>)
    ensures
        match r {
            Ok((rest, t)) => taken(i.items(), frac_len(i.items())) == Some((rest.items(), t@)),
            Err(_) => frac_len(i.items()) is None,
        },
{
    let ghost s = i.items();
    let (i, p) = match char('.').parse(i) {
        Ok(r) => r,
        Err(e) => return Err(e),
    };
    let (i, d) = match digits(i) {
        Ok(r) => r,
        Err(e) => return Err(e),
    };
    let mut res = char_string(p);
    let ds = crate::strings::chars_to_string(&d);
    res.append(ds.as_str());
    proof {
        lemma_digit_run(s.drop_first());
        let n = 1 + digit_run(s.drop_first());
        assert(s.drop_first().skip(digit_run(s.drop_first()) as int) =~= s.skip(n as int));
        assert(seq!['.'] + s.drop_first().take(digit_run(s.drop_first()) as int) =~= s.take(n as int));
    }
    Ok((i, res))
}

/// An exponent: `e` or `E`, an optional sign, and one or more digits.
fn exp<I: Input<Item = char>>(i: I) -> (r: ParseResult<I, String>)
    ensures
        match r {
            Ok((rest, t)) => taken(i.items(), exp_len(i.items())) == Some((rest.items(), t@)),
            Err(_) => exp_len(i.items()) is None,
        },
{
    let ghost s = i.items();
    let (i, e_) = match char('e').or(char('E')).parse(i) {
        Ok(r) => r,
        Err(e) => return Err(e),
    };
    let ghost t = i.items();
    let (i, sign) = match char('-').or(char('+')).optional().parse(i) {
        Ok(r) => r,
        Err(e) => return Err(e),
    };
    let ghost k: nat = if t.len() > 0 && (t[0] == '-' || t[0] == '+') { 1 } else { 0 };
    assert(i.items() == t.skip(k as int)) by {
        if k == 0 {
            assert(t.skip(0) =~= t);
        }
    }
    let (i, d) = match digits(i) {
        Ok(r) => r,
        Err(e) => return Err(e),
    };
    let mut res = char_string(e_);
    match sign {
        Some(c) => res.push(c),
        None => {},
    }
    let ds = crate::strings::chars_to_string(&d);
    res.append(ds.as_str());
    proof {
        lemma_digit_run(t.skip(k as int));
        let dr = digit_run(t.skip(k as int));
        let n = 1 + k + dr;
        assert(t.skip(k as int).skip(dr as int) =~= s.skip(n as int));
        if k == 1 {
            assert(seq![e_].push(t[0]) + t.skip(1).take(dr as int) =~= s.take(n as int));
        } else {
            assert(seq![e_] + t.take(dr as int) =~= s.take(n as int));
        }
    }
    Ok((i, res))
}

/// A digit from 1 to 9 and the digits after it.
fn int_nonzero<I: Input<Item = char>>(i: I) -> (r: ParseResult<I, String>)
    ensures
        match r {
            Ok((rest, t)) => {
                &&& i.items().len() > 0 && '1' <= i.items()[0] && i.items()[0] <= '9'
                &&& taken(i.items(), Some((1 + digit_run(i.items().drop_first())) as nat)) == Some(
                    (rest.items(), t@),
                )
            },
            Err(e) => !(i.items().len() > 0 && '1' <= i.items()[0] && i.items()[0] <= '9')
                && digit_error(i.items(), e),
        },
{
    let ghost s = i.items();
    let d19 = any_char().satisfy(is_digit_1_9);
    let ghost d19f = filter_fn(any_char_fn(), |c: char| '1' <= c && c <= '9');
    proof {
        lemma_any_char_refines::<I>(d19.parser);
        lemma_satisfy_refines(d19, any_char_fn(), id_view(), |c: char| '1' <= c && c <= '9');
    }
    let (i, c) = match parse_refined::<I, char, _, char>(&d19, i, Ghost(d19f), Ghost(id_view())) {
        Ok(r) => r,
        Err(e) => {
            proof {
                lemma_satisfy_rejects(d19, s, e);
            }
            return Err(e);
        },
    };
    let ghost t = i.items();
    let p = any_char().satisfy(is_digit_char).many();
    let ghost df = filter_fn(any_char_fn(), digit_pred());
    proof {
        lemma_any_char_refines::<I>(p.parser.parser);
        lemma_satisfy_refines(p.parser, any_char_fn(), id_view(), digit_pred());
        assert(progresses(df));
        lemma_many_refines(p, df, id_view());
        lemma_digit_run(t);
        assert forall|v: Vec<char>| #[trigger] seq_view(id_view())(v) == v@ by {
            assert(v@.map_values(id_view()) =~= v@);
        }
    }
    let (i, cs) = match parse_refined::<I, Vec<char>, _, Seq<char>>(&p, i, Ghost(|u: Seq<char>| Some(iterate(df, u))), Ghost(seq_view(id_view()))) {
        Ok(r) => r,
        Err(e) => return Err(e),
    };
    let mut res = char_string(c);
    let rest_digits = crate::strings::chars_to_string(&cs);
    res.append(rest_digits.as_str());
    proof {
        lemma_digit_run(t);
        let n = 1 + digit_run(t);
        assert(t.skip(digit_run(t) as int) =~= s.skip(n as int));
        assert(seq![c] + t.take(digit_run(t) as int) =~= s.take(n as int));
    }
    Ok((i, res))
}

pub open spec fn frac_fn() -> spec_fn(Seq<char>) -> Option<(Seq<char>, Seq<char>)> {
    |s: Seq<char>| taken(s, frac_len(s))
}

pub open spec fn exp_fn() -> spec_fn(Seq<char>) -> Option<(Seq<char>, Seq<char>)> {
    |s: Seq<char>| taken(s, exp_len(s))
}

pub open spec fn int_nonzero_fn() -> spec_fn(Seq<char>) -> Option<(Seq<char>, Seq<char>)> {
    |s: Seq<char>| if s.len() > 0 && '1' <= s[0] && s[0] <= '9' {
        taken(s, Some((1 + digit_run(s.drop_first())) as nat))
    } else {
        None
    }
}

proof fn lemma_number_parts_refine<I: Input<Item = char>>()
    ensures
        fn_refines(int_nonzero::<I>, int_nonzero_fn(), string_view()),
        forall|i: I| call_requires(int_nonzero::<I>, (i,)),
        fn_refines(frac::<I>, frac_fn(), string_view()),
        forall|i: I| call_requires(frac::<I>, (i,)),
        fn_refines(exp::<I>, exp_fn(), string_view()),
        forall|i: I| call_requires(exp::<I>, (i,)),
{
}

/// The integer part of a number.
fn int_part<I: Input<Item = char>>(i: I) -> (r: ParseResult<I, String>)
    ensures
        match r {
            Ok((rest, t)) => taken(i.items(), int_len(i.items())) == Some((rest.items(), t@)),
            Err(e) => int_len(i.items()) is None && digit_error(i.items(), e),
        },
{
    let ghost s = i.items();
    let zero = |c: char| -> (t: String)
        ensures
            t@ == seq![c],
        { char_string(c) };
    let p = char('0').map(zero).or(lift(int_nonzero));
    let ghost h = |c: char| seq![c];
    let ghost ff = or_fn(map_fn(char_fn('0'), h), int_nonzero_fn());
    proof {
        lemma_char_refines::<I>(p.f.parser);
        assert(forall|c: char| call_requires(zero, (c,)));
        lemma_map_refines(p.f, char_fn('0'), id_view(), h, string_view());
        lemma_number_parts_refine::<I>();
        lemma_lift_refines(p.g, int_nonzero_fn(), string_view());
        lemma_or_refines(p, map_fn(char_fn('0'), h), int_nonzero_fn(), string_view());
        assert(ff(s) == taken(s, int_len(s))) by {
            if s.len() > 0 && s[0] == '0' {
                assert(s.take(1) =~= seq![s[0]]);
            }
        }
    }
    let r = parse_refined::<I, String, _, Seq<char>>(&p, i, Ghost(ff), Ghost(string_view()));
    proof {
        if r is Err {
            let e = r->Err_0;
            lemma_or_rejects(p, s, e);
            assert(fn_errors(p.g.func, |t: Seq<char>, e1: ParseErr| digit_error(t, e1)));
            lemma_lift_errors(p.g, |t: Seq<char>, e1: ParseErr| digit_error(t, e1));
        }
    }
    r
}

/// How the parts of a number at the front of `s` fit together: after an
/// optional `-` of length `a`, the integer part, then the fraction and the
/// exponent where they can be read; the number's text is the parts' texts
/// joined, and what is left follows the last part.
proof fn lemma_number_assembly(s: Seq<char>, a: nat)
    requires
        a == (if s.len() > 0 && s[0] == '-' { 1nat } else { 0nat }),
        int_len(s.skip(a as int)) is Some,
    ensures
        ({
            let b = int_len(s.skip(a as int))->Some_0;
            let t = s.skip((a + b) as int);
            let fl: nat = match frac_len(t) { Some(x) => x, None => 0 };
            let u = t.skip(fl as int);
            let el: nat = match exp_len(u) { Some(x) => x, None => 0 };
            &&& s.skip(a as int).skip(b as int) == t
            &&& s.take(a as int) + s.skip(a as int).take(b as int) == s.take((a + b) as int)
            &&& s.take((a + b) as int) + t.take(fl as int) == s.take((a + b + fl) as int)
            &&& u == s.skip((a + b + fl) as int)
            &&& s.take((a + b + fl) as int) + u.take(el as int) == s.take((a + b + fl + el) as int)
            &&& u.skip(el as int) == s.skip((a + b + fl + el) as int)
            &&& number_len(s) == Some(a + b + fl + el)
        }),
{
    let x = s.skip(a as int);
    let b = int_len(x)->Some_0;
    lemma_int_len_bound(x);
    lemma_take_join(s, a as int, (a + b) as int);
    let t = s.skip((a + b) as int);
    let fl: nat = match frac_len(t) { Some(x) => x, None => 0 };
    lemma_frac_len_bound(t);
    lemma_take_join(s, (a + b) as int, (a + b + fl) as int);
    let u = t.skip(fl as int);
    let el: nat = match exp_len(u) { Some(x) => x, None => 0 };
    lemma_exp_len_bound(u);
    lemma_take_join(s, (a + b + fl) as int, (a + b + fl + el) as int);
}

/// Taking `i` items and then `j - i` more takes `j` items.
proof fn lemma_take_join(s: Seq<char>, i: int, j: int)
    requires
        0 <= i <= j <= s.len(),
    ensures
        s.take(i) + s.skip(i).take(j - i) == s.take(j),
        s.skip(i).skip(j - i) == s.skip(j),
{
    assert(s.take(i) + s.skip(i).take(j - i) =~= s.take(j));
    assert(s.skip(i).skip(j - i) =~= s.skip(j));
}

proof fn lemma_int_len_bound(x: Seq<char>)
    ensures
        int_len(x) matches Some(b) ==> b <= x.len(),
{
    if x.len() > 0 {
        lemma_digit_run(x.drop_first());
    }
}

proof fn lemma_frac_len_bound(t: Seq<char>)
    ensures
        frac_len(t) matches Some(n) ==> n <= t.len(),
{
    if t.len() > 0 {
        lemma_digit_run(t.drop_first());
    }
}

proof fn lemma_exp_len_bound(u: Seq<char>)
    ensures
        exp_len(u) matches Some(n) ==> n <= u.len(),
{
    if u.len() > 0 {
        let ut = u.drop_first();
        let k: nat = if ut.len() > 0 && (ut[0] == '-' || ut[0] == '+') { 1 } else { 0 };
        lemma_digit_run(ut.skip(k as int));
    }
}

/// Reads a number and gives its text: an optional `-`, the integer part, and
/// a fraction and an exponent where they can be read.
pub fn jnumber<I: Input<Item = char>>(input: I) -> (r: ParseResult<I, String>)
    ensures
        match r {
            Ok((rest, t)) => number_spec(input.items()) == Some((rest.items(), t@)),
            Err(e) => number_spec(input.items()) is None && number_error(input.items(), e),
        },
{
    let ghost s = input.items();
    let (i, m) = match char('-').optional().parse(input) {
        Ok(r) => r,
        Err(e) => return Err(e),
    };
    let ghost a: nat = if s.len() > 0 && s[0] == '-' { 1 } else { 0 };
    assert(i.items() == s.skip(a as int)) by {
        if a == 0 {
            assert(s.skip(0) =~= s);
        }
    }
    let (i, int_text) = match int_part(i) {
        Ok(r) => r,
        Err(e) => return Err(e),
    };
    let ghost t = i.items();
    let fp = lift(frac).optional();
    let ep = lift(exp).optional();
    proof {
        lemma_number_parts_refine::<I>();
        lemma_lift_refines(fp.parser, frac_fn(), string_view());
        lemma_optional_refines(fp, frac_fn(), string_view());
        lemma_lift_refines(ep.parser, exp_fn(), string_view());
        lemma_optional_refines(ep, exp_fn(), string_view());
    }
    let (i, f) = match parse_refined::<I, Option<String>, _, Option<Seq<char>>>(&fp, i, Ghost(opt_fn(frac_fn())), Ghost(opt_view(string_view()))) {
        Ok(r) => r,
        Err(e) => return Err(e),
    };
    let ghost u = i.items();
    let (i, e) = match parse_refined::<I, Option<String>, _, Option<Seq<char>>>(&ep, i, Ghost(opt_fn(exp_fn())), Ghost(opt_view(string_view()))) {
        Ok(r) => r,
        Err(e) => return Err(e),
    };
    let mut res = String::new();
    match m {
        Some(c) => res.push(c),
        None => {},
    }
    let ghost r0 = res@;
    res.append(int_text.as_str());
    let ghost r1 = res@;
    match f {
        Some(ft) => res.append(ft.as_str()),
        None => {},
    }
    let ghost r2 = res@;
    match e {
        Some(et) => res.append(et.as_str()),
        None => {},
    }
    proof {
        lemma_number_assembly(s, a);
        let b = int_len(s.skip(a as int))->Some_0;
        let fl: nat = match frac_len(t) { Some(x) => x, None => 0 };
        let el: nat = match exp_len(u) { Some(x) => x, None => 0 };
        assert(r0 =~= s.take(a as int));
        assert(r1 =~= s.take((a + b) as int));
        assert(r2 =~= s.take((a + b + fl) as int));
        assert(res@ =~= s.take((a + b + fl + el) as int));
    }
    Ok((i, res))
}

// ------------------------------------------------------------------- values

/// One member of an object: its key and value.
pub type Member = (Seq<char>, JsonValue);

/// Where the key `k` first occurs in `ms`.
pub open spec fn key_index(ms: Seq<Member>, k: Seq<char>) -> Option<int>
    decreases ms.len(),
{
    if ms.len() == 0 {
        None
    } else if ms[0].0 == k {
        Some(0)
    } else {
        match key_index(ms.drop_first(), k) {
            Some(j) => Some(j + 1),
            None => None,
        }
    }
}

/// `ms` with the member `(k, v)` put in: in the place of an earlier member
/// with key `k`, or at the end.
pub open spec fn put_member(ms: Seq<Member>, k: Seq<char>, v: JsonValue) -> Seq<Member> {
    match key_index(ms, k) {
        Some(j) => ms.update(j, (k, v)),
        None => ms.push((k, v)),
    }
}

/// The members of an object as read, each key once, with the value it was
/// given last, in the order the keys first appear.
pub open spec fn collect_members(ms: Seq<Member>) -> Seq<Member>
    decreases ms.len(),
{
    if ms.len() == 0 {
        Seq::empty()
    } else {
        put_member(collect_members(ms.drop_last()), ms.last().0, ms.last().1)
    }
}

/// A JSON value at the front of `s`: `null`, a boolean, a string, a number,
/// an array or an object, tried in that order.
pub open spec fn json_spec(s: Seq<char>) -> Option<(Seq<char>, JsonValue)>
    decreases s.len(), 2nat,
{
    match literal_rest("null"@, s) {
        Some(r) => Some((r, JsonValue::Null)),
        None => match bool_spec(s) {
            Some((r, b)) => Some((r, JsonValue::Bool(b))),
            None => match string_spec(s) {
                Some((r, cs)) => Some((r, JsonValue::Str(cs))),
                None => match number_spec(s) {
                    Some((r, t)) => Some((r, JsonValue::Number(t))),
                    None => match array_spec(s) {
                        Some((r, vs)) => Some((r, JsonValue::Array(vs))),
                        None => match object_spec(s) {
                            Some((r, ms)) => Some((r, JsonValue::Object(ms))),
                            None => None,
                        },
                    },
                },
            },
        },
    }
}

/// An array: `[`, values separated by `,`, `]`, with whitespace around the
/// marks.
pub open spec fn array_spec(s: Seq<char>) -> Option<(Seq<char>, Seq<JsonValue>)>
    decreases s.len(), 1nat,
{
    match token('[', s) {
        None => None,
        Some(m) => if m.len() < s.len() {
            match elements(m) {
                Some((m2, vs)) => match token(']', m2) {
                    Some(r) => Some((r, vs)),
                    None => None,
                },
                None => None,
            }
        } else {
            None
        },
    }
}

/// Values separated by `,`, possibly none.
pub open spec fn elements(m: Seq<char>) -> Option<(Seq<char>, Seq<JsonValue>)>
    decreases m.len(), 3nat,
{
    match json_spec(m) {
        None => Some((m, Seq::empty())),
        Some((m2, v)) => if m2.len() < m.len() {
            match elements_tail(m2) {
                Some((r, vs)) => Some((r, seq![v] + vs)),
                None => None,
            }
        } else {
            None
        },
    }
}

/// The values after the first: each after a `,`, for as long as a `,` follows.
pub open spec fn elements_tail(m: Seq<char>) -> Option<(Seq<char>, Seq<JsonValue>)>
    decreases m.len(), 3nat,
{
    match token(',', m) {
        None => Some((m, Seq::empty())),
        Some(m1) => if m1.len() < m.len() {
            match json_spec(m1) {
                None => None,
                Some((m2, v)) => if m2.len() < m.len() {
                    match elements_tail(m2) {
                        Some((r, vs)) => Some((r, seq![v] + vs)),
                        None => None,
                    }
                } else {
                    None
                },
            }
        } else {
            None
        },
    }
}

/// An object: `{`, members separated by `,`, `}`, with whitespace around the
/// marks.
pub open spec fn object_spec(s: Seq<char>) -> Option<(Seq<char>, Seq<Member>)>
    decreases s.len(), 1nat,
{
    match token('{', s) {
        None => None,
        Some(m) => if m.len() < s.len() {
            match members(m) {
                Some((m2, ms)) => match token('}', m2) {
                    Some(r) => Some((r, collect_members(ms))),
                    None => None,
                },
                None => None,
            }
        } else {
            None
        },
    }
}

/// A member: a string, `:`, a value.
pub open spec fn member(m: Seq<char>) -> Option<(Seq<char>, Member)>
    decreases m.len(), 3nat,
{
    match string_spec(m) {
        None => None,
        Some((m1, k)) => match token(':', m1) {
            None => None,
            Some(m2) => if m2.len() < m.len() {
                match json_spec(m2) {
                    Some((m3, v)) => Some((m3, (k, v))),
                    None => None,
                }
            } else {
                None
            },
        },
    }
}

/// Members separated by `,`, possibly none.
pub open spec fn members(m: Seq<char>) -> Option<(Seq<char>, Seq<Member>)>
    decreases m.len(), 4nat,
{
    match member(m) {
        None => Some((m, Seq::empty())),
        Some((m2, x)) => if m2.len() < m.len() {
            match members_tail(m2) {
                Some((r, xs)) => Some((r, seq![x] + xs)),
                None => None,
            }
        } else {
            None
        },
    }
}

/// The members after the first: each after a `,`, for as long as a `,`
/// follows.
pub open spec fn members_tail(m: Seq<char>) -> Option<(Seq<char>, Seq<Member>)>
    decreases m.len(), 4nat,
{
    match token(',', m) {
        None => Some((m, Seq::empty())),
        Some(m1) => if m1.len() < m.len() {
            match member(m1) {
                None => None,
                Some((m2, x)) => if m2.len() < m.len() {
                    match members_tail(m2) {
                        Some((r, xs)) => Some((r, seq![x] + xs)),
                        None => None,
                    }
                } else {
                    None
                },
            }
        } else {
            None
        },
    }
}

/// `e` is the error reading a value at the front of `s` gives: the kinds of
/// value are tried in turn, and the last one tried, an object, gives it.
pub open spec fn json_error(s: Seq<char>, e: ParseErr) -> bool
    decreases s.len(), 2nat,
{
    object_error(s, e)
}

/// `e` is the error reading an object at the front of `s` gives: that of the
/// `{`, or that of a member after a `,`, or that of the `}`.
pub open spec fn object_error(s: Seq<char>, e: ParseErr) -> bool
    decreases s.len(), 1nat,
{
    match token('{', s) {
        None => e == token_err('{', s),
        Some(m) => m.len() < s.len() && match members(m) {
            None => members_error(m, e),
            Some((m2, _)) => e == token_err('}', m2),
        },
    }
}

/// `e` is how members at `m` fail: after a first member, a `,` comes and
/// the member after it fails with `e`.
pub open spec fn members_error(m: Seq<char>, e: ParseErr) -> bool
    decreases m.len(), 4nat,
{
    match member(m) {
        None => false,
        Some((m2, _)) => m2.len() < m.len() && members_tail_error(m2, e),
    }
}

/// `e` is how the members after the first fail, from `m`: a `,` comes and
/// the member after it fails with `e`.
pub open spec fn members_tail_error(m: Seq<char>, e: ParseErr) -> bool
    decreases m.len(), 4nat,
{
    match token(',', m) {
        None => false,
        Some(m1) => m1.len() < m.len() && match member(m1) {
            None => member_error(m1, e),
            Some((m2, _)) => m2.len() < m.len() && members_tail_error(m2, e),
        },
    }
}

/// `e` is the error reading a member at the front of `m` gives: that of the
/// key, of the `:`, or of the value.
pub open spec fn member_error(m: Seq<char>, e: ParseErr) -> bool
    decreases m.len(), 3nat,
{
    match string_spec(m) {
        None => e == string_error(m),
        Some((m1, _)) => match token(':', m1) {
            None => e == token_err(':', m1),
            Some(m2) => m2.len() < m.len() && json_error(m2, e),
        },
    }
}

/// `e` is the error reading an array at the front of `s` gives: that of the
/// `[`, or that of a value after a `,`, or that of the `]`.
pub open spec fn array_error(s: Seq<char>, e: ParseErr) -> bool {
    match token('[', s) {
        None => e == token_err('[', s),
        Some(m) => match elements(m) {
            None => elements_error(m, e),
            Some((m2, _)) => e == token_err(']', m2),
        },
    }
}

/// `e` is how values at `m` fail: after a first value, a `,` comes and the
/// value after it fails with `e`.
pub open spec fn elements_error(m: Seq<char>, e: ParseErr) -> bool {
    match json_spec(m) {
        None => false,
        Some((m2, _)) => m2.len() < m.len() && elements_tail_error(m2, e),
    }
}

/// `e` is how the values after the first fail, from `m`: a `,` comes and
/// the value after it fails with `e`.
pub open spec fn elements_tail_error(m: Seq<char>, e: ParseErr) -> bool
    decreases m.len(),
{
    match token(',', m) {
        None => false,
        Some(m1) => m1.len() < m.len() && match json_spec(m1) {
            None => json_error(m1, e),
            Some((m2, _)) => m2.len() < m.len() && elements_tail_error(m2, e),
        },
    }
}

// ------------------------------------------------- how much the pieces read

proof fn lemma_skip_ws_len(s: Seq<char>)
    ensures
        skip_ws(s).len() <= s.len(),
    decreases s.len(),
{
    if s.len() > 0 && is_ws(s[0]) {
        lemma_skip_ws_len(s.drop_first());
    }
}

proof fn lemma_token_len(c: char, s: Seq<char>)
    ensures
        token(c, s) matches Some(r) ==> r.len() < s.len(),
{
    lemma_skip_ws_len(s);
    let t = skip_ws(s);
    if t.len() > 0 {
        lemma_skip_ws_len(t.drop_first());
    }
}

proof fn lemma_match_literal_len(t: Seq<char>, s: Seq<char>)
    ensures
        match_literal(t, s) matches Ok(r) ==> r.len() + t.len() == s.len(),
    decreases t.len(),
{
    if t.len() > 0 && s.len() > 0 && s[0] == t[0] {
        lemma_match_literal_len(t.drop_first(), s.drop_first());
    }
}

proof fn lemma_number_len(s: Seq<char>)
    ensures
        number_len(s) matches Some(n) ==> 1 <= n <= s.len(),
{
    let a: nat = if s.len() > 0 && s[0] == '-' { 1 } else { 0 };
    let sa = s.skip(a as int);
    if sa.len() > 0 {
        lemma_digit_run(sa.drop_first());
    }
    if let Some(b) = int_len(sa) {
        let t = s.skip((a + b) as int);
        if t.len() > 0 {
            lemma_digit_run(t.drop_first());
        }
        let f: nat = match frac_len(t) {
            Some(x) => x,
            None => 0,
        };
        let u = t.skip(f as int);
        if u.len() > 0 {
            let ut = u.drop_first();
            let k: nat = if ut.len() > 0 && (ut[0] == '-' || ut[0] == '+') { 1 } else { 0 };
            lemma_digit_run(ut.skip(k as int));
        }
    }
}

proof fn lemma_string_len(s: Seq<char>)
    ensures
        string_spec(s) matches Some((r, _)) ==> r.len() < s.len(),
{
    if s.len() > 0 {
        lemma_string_char_progress();
        lemma_iterate_len(string_char_fn(), s.drop_first());
    }
}

proof fn lemma_elements_tail_len(m: Seq<char>)
    ensures
        elements_tail(m) matches Some((r, _)) ==> r.len() <= m.len(),
    decreases m.len(),
{
    if let Some(m1) = token(',', m) {
        if m1.len() < m.len() {
            if let Some((m2, v)) = json_spec(m1) {
                if m2.len() < m.len() {
                    lemma_elements_tail_len(m2);
                }
            }
        }
    }
}

proof fn lemma_elements_len(m: Seq<char>)
    ensures
        elements(m) matches Some((r, _)) ==> r.len() <= m.len(),
{
    if let Some((m2, v)) = json_spec(m) {
        if m2.len() < m.len() {
            lemma_elements_tail_len(m2);
        }
    }
}

proof fn lemma_members_tail_len(m: Seq<char>)
    ensures
        members_tail(m) matches Some((r, _)) ==> r.len() <= m.len(),
    decreases m.len(),
{
    if let Some(m1) = token(',', m) {
        if m1.len() < m.len() {
            if let Some((m2, v)) = member(m1) {
                if m2.len() < m.len() {
                    lemma_members_tail_len(m2);
                }
            }
        }
    }
}

proof fn lemma_members_len(m: Seq<char>)
    ensures
        members(m) matches Some((r, _)) ==> r.len() <= m.len(),
{
    if let Some((m2, v)) = member(m) {
        if m2.len() < m.len() {
            lemma_members_tail_len(m2);
        }
    }
}

/// A JSON value reads at least one character.
pub proof fn lemma_json_progress(s: Seq<char>)
    ensures
        json_spec(s) matches Some((r, _)) ==> r.len() < s.len(),
{
    reveal_strlit("null");
    reveal_strlit("true");
    reveal_strlit("false");
    lemma_match_literal_len("null"@, s);
    lemma_match_literal_len("true"@, s);
    lemma_match_literal_len("false"@, s);
    lemma_string_len(s);
    lemma_number_len(s);
    lemma_token_len('[', s);
    lemma_token_len('{', s);
    if let Some(m) = token('[', s) {
        lemma_elements_len(m);
        if let Some((m2, vs)) = elements(m) {
            lemma_token_len(']', m2);
        }
    }
    if let Some(m) = token('{', s) {
        lemma_members_len(m);
        if let Some((m2, vs)) = members(m) {
            lemma_token_len('}', m2);
        }
    }
}

/// A member reads at least one character.
proof fn lemma_member_progress(m: Seq<char>)
    ensures
        member(m) matches Some((r, _)) ==> r.len() < m.len(),
{
    lemma_string_len(m);
    if let Some((m1, k)) = string_spec(m) {
        lemma_token_len(':', m1);
        if let Some(m2) = token(':', m1) {
            lemma_json_progress(m2);
        }
    }
}

// ------------------------------------------ the grammar as combinators build it

pub open spec fn json_fn() -> spec_fn(Seq<char>) -> Option<(Seq<char>, JsonValue)> {
    |s: Seq<char>| json_spec(s)
}

pub open spec fn member_fn() -> spec_fn(Seq<char>) -> Option<(Seq<char>, Member)> {
    |s: Seq<char>| member(s)
}

proof fn lemma_elements_tail_sep(m: Seq<char>)
    ensures
        elements_tail(m) == sep_iterate(token_fn(','), json_fn(), m),
    decreases m.len(),
{
    lemma_token_len(',', m);
    if let Some(m1) = token(',', m) {
        if let Some((m2, v)) = json_spec(m1) {
            if m2.len() < m.len() {
                lemma_elements_tail_sep(m2);
            }
        }
    }
}

proof fn lemma_elements_sep(m: Seq<char>)
    ensures
        elements(m) == sep_by_fn(json_fn(), token_fn(','))(m),
{
    lemma_json_progress(m);
    if let Some((m2, v)) = json_spec(m) {
        lemma_elements_tail_sep(m2);
    }
}

proof fn lemma_members_sep(m: Seq<char>)
    ensures
        members(m) == sep_by_fn(member_fn(), token_fn(','))(m),
{
    lemma_member_progress(m);
    if let Some((m2, v)) = member(m) {
        lemma_members_tail_sep(m2);
    }
}

proof fn lemma_array_comb(s: Seq<char>)
    ensures
        array_spec(s) == between_fn(token_fn('['), sep_by_fn(json_fn(), token_fn(',')), token_fn(']'))(
            s,
        ),
{
    lemma_token_len('[', s);
    if let Some(m) = token('[', s) {
        lemma_json_progress(m);
        if let Some((m2, v)) = json_spec(m) {
            lemma_elements_tail_sep(m2);
        }
        assert(elements(m) == sep_by_fn(json_fn(), token_fn(','))(m));
    }
}

proof fn lemma_members_tail_sep(m: Seq<char>)
    ensures
        members_tail(m) == sep_iterate(token_fn(','), member_fn(), m),
    decreases m.len(),
{
    lemma_token_len(',', m);
    if let Some(m1) = token(',', m) {
        if let Some((m2, v)) = member(m1) {
            if m2.len() < m.len() {
                lemma_members_tail_sep(m2);
            }
        }
    }
}

pub open spec fn member_comb() -> spec_fn(Seq<char>) -> Option<(Seq<char>, Member)> {
    map_fn(pair_fn(string_fn(), then_fn(token_fn(':'), json_fn())), |x: Member| x)
}

proof fn lemma_member_comb(m: Seq<char>)
    ensures
        member(m) == member_comb()(m),
{
    lemma_string_len(m);
    if let Some((m1, k)) = string_spec(m) {
        lemma_token_len(':', m1);
    }
}

pub open spec fn object_comb() -> spec_fn(Seq<char>) -> Option<(Seq<char>, Seq<Member>)> {
    map_fn(
        between_fn(token_fn('{'), sep_by_fn(member_fn(), token_fn(',')), token_fn('}')),
        |ms: Seq<Member>| collect_members(ms),
    )
}

proof fn lemma_object_comb(s: Seq<char>)
    ensures
        object_spec(s) == object_comb()(s),
{
    lemma_token_len('{', s);
    if let Some(m) = token('{', s) {
        lemma_member_progress(m);
        if let Some((m2, v)) = member(m) {
            lemma_members_tail_sep(m2);
        }
        assert(members(m) == sep_by_fn(member_fn(), token_fn(','))(m));
    }
}

proof fn lemma_elements_tail_error(m: Seq<char>, e: ParseErr)
    requires
        sep_iterate_err(token_fn(','), json_fn(), |t: Seq<char>, e1: ParseErr| json_error(t, e1), m, e),
    ensures
        elements_tail_error(m, e),
    decreases m.len(),
{
    lemma_token_len(',', m);
    if let Some(m1) = token(',', m) {
        if let Some((m2, v)) = json_spec(m1) {
            lemma_elements_tail_error(m2, e);
        }
    }
}

proof fn lemma_members_tail_error(m: Seq<char>, e: ParseErr)
    requires
        sep_iterate_err(token_fn(','), member_fn(), |t: Seq<char>, e1: ParseErr| member_error(t, e1), m, e),
    ensures
        members_tail_error(m, e),
    decreases m.len(),
{
    lemma_token_len(',', m);
    if let Some(m1) = token(',', m) {
        if let Some((m2, x)) = member(m1) {
            lemma_members_tail_error(m2, e);
        }
    }
}

// ------------------------------------------------------------ object members

pub open spec fn json_view_fn() -> spec_fn(Json) -> JsonValue {
    |j: Json| j@
}

pub open spec fn member_view_fn() -> spec_fn((String, Json)) -> Member {
    |m: (String, Json)| (m.0@, m.1@)
}

proof fn lemma_key_index(ms: Seq<Member>, k: Seq<char>, j: int)
    requires
        0 <= j <= ms.len(),
        forall|i: int| 0 <= i < j ==> ms[i].0 != k,
    ensures
        j < ms.len() && ms[j].0 == k ==> key_index(ms, k) == Some(j),
        j == ms.len() ==> key_index(ms, k) is None,
    decreases j,
{
    if j > 0 {
        lemma_key_index(ms.drop_first(), k, j - 1);
    } else if ms.len() > 0 && ms[0].0 == k {
    } else if j == ms.len() {
    }
}

proof fn lemma_key_index_bound(ms: Seq<Member>, k: Seq<char>)
    ensures
        key_index(ms, k) matches Some(j) ==> 0 <= j < ms.len() && ms[j].0 == k,
    decreases ms.len(),
{
    if ms.len() > 0 && ms[0].0 != k {
        lemma_key_index_bound(ms.drop_first(), k);
    }
}

/// Where the key `key` stands among `ms`.
fn find_key(ms: &Vec<(String, Json)>, key: &String) -> (r: Option<usize>)
    ensures
        match r {
            Some(j) => key_index(seq_view(member_view_fn())(*ms), key@) == Some(j as int),
            None => key_index(seq_view(member_view_fn())(*ms), key@) is None,
        },
{
    let ghost mv = seq_view(member_view_fn())(*ms);
    let mut j: usize = 0;
    while j < ms.len()
        invariant
            j <= ms.len(),
            mv == seq_view(member_view_fn())(*ms),
            forall|i: int| 0 <= i < j ==> mv[i].0 != key@,
        decreases ms.len() - j,
    {
        if ms[j].0 == *key {
            proof {
                lemma_key_index(mv, key@, j as int);
            }
            return Some(j);
        }
        j = j + 1;
    }
    proof {
        lemma_key_index(mv, key@, j as int);
    }
    None
}

/// The members of an object, each key once with its last value, in the order
/// the keys first appear.
fn collect_member_vec(l: Vec<(String, Json)>) -> (res: Vec<(String, Json)>)
    ensures
        seq_view(member_view_fn())(res) == collect_members(seq_view(member_view_fn())(l)),
{
    let ghost lv = seq_view(member_view_fn())(l);
    let mut l = l;
    let mut res: Vec<(String, Json)> = Vec::new();
    let ghost mut k: int = 0;
    assert(lv.take(0) =~= Seq::<Member>::empty());
    assert(seq_view(member_view_fn())(res) =~= Seq::<Member>::empty());
    assert(lv.skip(0) =~= lv);
    while l.len() > 0
        invariant
            0 <= k <= lv.len(),
            seq_view(member_view_fn())(l) == lv.skip(k),
            seq_view(member_view_fn())(res) == collect_members(lv.take(k)),
        decreases l.len(),
    {
        let ghost old_l = l@;
        let ghost old_res = res@;
        assert(seq_view(member_view_fn())(l).len() == l@.len());
        assert(k < lv.len());
        assert(lv.skip(k)[0] == lv[k]);
        assert(seq_view(member_view_fn())(l)[0] == member_view_fn()(old_l[0]));
        let (key, val) = l.remove(0);
        let ghost mem: Member = (key@, val@);
        proof {
            assert(l@ =~= old_l.drop_first());
            assert(seq_view(member_view_fn())(l) =~= seq_view(member_view_fn())(l).take(l@.len() as int));
            assert(seq_view(member_view_fn())(l) =~= lv.skip(k).drop_first());
            assert(lv.skip(k).drop_first() =~= lv.skip(k + 1));
            assert(lv[k] == mem);
            assert(lv.take(k + 1).drop_last() =~= lv.take(k));
        }
        match find_key(&res, &key) {
            Some(j) => {
                proof {
                    lemma_key_index_bound(seq_view(member_view_fn())(res), key@);
                }
                res.set(j, (key, val));
                assert(seq_view(member_view_fn())(res) =~= put_member(collect_members(lv.take(k)), mem.0, mem.1));
            },
            None => {
                res.push((key, val));
                assert(seq_view(member_view_fn())(res) =~= put_member(collect_members(lv.take(k)), mem.0, mem.1));
            },
        }
        proof {
            k = k + 1;
        }
    }
    assert(lv.take(k) =~= lv);
    res
}

// ------------------------------------------------------------ readers

proof fn lemma_readers_refine<I: Input<Item = char>>()
    ensures
        fn_refines(jstring::<I>, string_fn(), string_view()),
        forall|i: I| call_requires(jstring::<I>, (i,)),
        fn_refines(value_separator::<I>, token_fn(','), unit_view()),
        forall|i: I| call_requires(value_separator::<I>, (i,)),
        fn_refines(name_separator::<I>, token_fn(':'), unit_view()),
        forall|i: I| call_requires(name_separator::<I>, (i,)),
        fn_refines(begin_array::<I>, token_fn('['), unit_view()),
        forall|i: I| call_requires(begin_array::<I>, (i,)),
        fn_refines(end_array::<I>, token_fn(']'), unit_view()),
        forall|i: I| call_requires(end_array::<I>, (i,)),
        fn_refines(begin_object::<I>, token_fn('{'), unit_view()),
        forall|i: I| call_requires(begin_object::<I>, (i,)),
        fn_refines(end_object::<I>, token_fn('}'), unit_view()),
        forall|i: I| call_requires(end_object::<I>, (i,)),
{
}

/// Reads an array: `[`, values separated by `,`, `]`.
pub fn jarray<I: Input<Item = char>>(input: I) -> (r: ParseResult<I, Vec<Json>>)
    ensures
        match r {
            Ok((rest, vs)) => array_spec(input.items()) == Some(
                (rest.items(), seq_view(json_view_fn())(vs)),
            ),
            Err(e) => array_spec(input.items()) is None && array_error(input.items(), e),
        },
    decreases input.items().len(), 0nat,
{
    let ghost n = input.items().len();
    let elem = |i: I| -> (r: ParseResult<I, Json>)
        requires
            i.items().len() < n,
        ensures
            match r {
                Ok((rest, v)) => json_spec(i.items()) == Some((rest.items(), v@)),
                Err(e) => json_spec(i.items()) is None && json_error(i.items(), e),
            },
        { json(i) };
    let p = lift(elem).sep_by(lift(value_separator)).bracket(lift(begin_array), lift(end_array));
    let ghost s = input.items();
    let ghost ff = between_fn(token_fn('['), sep_by_fn(json_fn(), token_fn(',')), token_fn(']'));
    proof {
        lemma_readers_refine::<I>();
        lemma_lift_refines(p.parser.parser, json_fn(), json_view_fn());
        lemma_lift_refines(p.parser.sep, token_fn(','), unit_view());
        lemma_lift_refines(p.brac, token_fn('['), unit_view());
        lemma_lift_refines(p.ket, token_fn(']'), unit_view());
        assert(progresses(then_fn(token_fn(','), json_fn()))) by {
            assert forall|t: Seq<char>| #[trigger] then_fn(token_fn(','), json_fn())(t) is Some implies then_fn(token_fn(','), json_fn())(t)->Some_0.0.len() < t.len() by {
                lemma_token_len(',', t);
                if let Some(m) = token(',', t) {
                    lemma_json_progress(m);
                }
            }
        }
        assert(shrinks(json_fn())) by {
            assert forall|t: Seq<char>| #[trigger] json_fn()(t) is Some implies json_fn()(t)->Some_0.0.len() <= t.len() by {
                lemma_json_progress(t);
            }
        }
        assert(shrinks(token_fn(','))) by {
            assert forall|t: Seq<char>| #[trigger] token_fn(',')(t) is Some implies token_fn(',')(t)->Some_0.0.len() <= t.len() by {
                lemma_token_len(',', t);
            }
        }
        assert(progresses(token_fn('['))) by {
            assert forall|t: Seq<char>| #[trigger] token_fn('[')(t) is Some implies token_fn('[')(t)->Some_0.0.len() < t.len() by {
                lemma_token_len('[', t);
            }
        }
        assert(shrinks(sep_by_fn(json_fn(), token_fn(',')))) by {
            assert forall|t: Seq<char>| #[trigger] sep_by_fn(json_fn(), token_fn(','))(t) is Some implies sep_by_fn(json_fn(), token_fn(','))(t)->Some_0.0.len() <= t.len() by {
                lemma_elements_sep(t);
                lemma_elements_len(t);
            }
        }
        lemma_sep_by_refines(p.parser, json_fn(), json_view_fn(), token_fn(','), unit_view());
        lemma_bracket_refines(p, sep_by_fn(json_fn(), token_fn(',')), seq_view(json_view_fn()), token_fn('['), unit_view(), token_fn(']'), unit_view());
        lemma_lift_below(p.parser.parser, n);
        lemma_total_below(p.parser.sep, n);
        lemma_sep_by_below(p.parser, json_fn(), json_view_fn(), token_fn(','), unit_view(), n);
        lemma_bracket_below(p, sep_by_fn(json_fn(), token_fn(',')), seq_view(json_view_fn()), token_fn('['), unit_view(), n);
        lemma_array_comb(s);
    }
    let r = parse_refined::<I, Vec<Json>, _, Seq<JsonValue>>(&p, input, Ghost(ff), Ghost(seq_view(json_view_fn())));
    proof {
        if r is Err {
            let e = r->Err_0;
            let jerr = |t: Seq<char>, e1: ParseErr| json_error(t, e1);
            let perr = |t: Seq<char>, e1: ParseErr| match json_fn()(t) {
                None => false,
                Some((m, _)) => sep_iterate_err(token_fn(','), json_fn(), jerr, m, e1),
            };
            let berr = |t: Seq<char>, e1: ParseErr| e1 == token_err('[', t);
            let kerr = |t: Seq<char>, e1: ParseErr| e1 == token_err(']', t);
            assert(fn_errors(p.parser.parser.func, jerr));
            lemma_lift_errors(p.parser.parser, jerr);
            lemma_sep_by_errors(p.parser, json_fn(), json_view_fn(), token_fn(','), unit_view(), jerr);
            assert(fn_errors(p.brac.func, berr));
            lemma_lift_errors(p.brac, berr);
            assert(fn_errors(p.ket.func, kerr));
            lemma_lift_errors(p.ket, kerr);
            lemma_bracket_errors(p, sep_by_fn(json_fn(), token_fn(',')), seq_view(json_view_fn()), token_fn('['), unit_view(), token_fn(']'), unit_view(), perr, berr, kerr);
            assert(p.rejects(s, e));
            if let Some(m) = token('[', s) {
                lemma_elements_sep(m);
                if let Some((m1, v)) = json_spec(m) {
                    lemma_json_progress(m);
                    if elements(m) is None {
                        lemma_elements_tail_error(m1, e);
                    }
                }
            }
        }
    }
    r
}

/// Reads an object: `{`, members `key: value` separated by `,`, `}`; each key
/// is kept once, with the last value given for it.
pub fn jobject<I: Input<Item = char>>(input: I) -> (r: ParseResult<I, Vec<(String, Json)>>)
    ensures
        match r {
            Ok((rest, ms)) => {
                &&& object_spec(input.items()) == Some((rest.items(), seq_view(member_view_fn())(ms)))
                &&& keys_unique(seq_view(member_view_fn())(ms))
                &&& members_keyed(seq_view(member_view_fn())(ms))
            },
            Err(e) => object_spec(input.items()) is None && object_error(input.items(), e),
        },
    decreases input.items().len(), 0nat,
{
    let ghost n = input.items().len();
    let pair = |k: String, v: Json| -> (m: (String, Json))
        ensures
            m == (k, v),
        { (k, v) };
    let collect = |l: Vec<(String, Json)>| -> (res: Vec<(String, Json)>)
        ensures
            seq_view(member_view_fn())(res) == collect_members(seq_view(member_view_fn())(l)),
        { collect_member_vec(l) };
    let elem = |i: I| -> (r: ParseResult<I, Json>)
        requires
            i.items().len() < n,
        ensures
            match r {
                Ok((rest, v)) => json_spec(i.items()) == Some((rest.items(), v@)),
                Err(e) => json_spec(i.items()) is None && json_error(i.items(), e),
            },
        { json(i) };
    let mem = lift_a_2(pair, lift(jstring), lift(name_separator).seq(lift(elem)));
    let p = mem.sep_by(lift(value_separator)).bracket(lift(begin_object), lift(end_object)).map(collect);
    let ghost s = input.items();
    let ghost ms_fn = sep_by_fn(member_fn(), token_fn(','));
    let ghost body = between_fn(token_fn('{'), ms_fn, token_fn('}'));
    proof {
        lemma_readers_refine::<I>();
        lemma_lift_refines(mem.pa, string_fn(), string_view());
        lemma_lift_refines(mem.pb.a, token_fn(':'), unit_view());
        lemma_lift_refines(mem.pb.b, json_fn(), json_view_fn());
        lemma_seq_refines(mem.pb, token_fn(':'), unit_view(), json_fn(), json_view_fn());
        assert(forall|k: String, v: Json| call_requires(pair, (k, v)));
        lemma_lift_a2_refines(mem, string_fn(), string_view(), then_fn(token_fn(':'), json_fn()), json_view_fn(), |x: Member| x, member_view_fn());
        assert(member_comb() =~= member_fn()) by {
            assert forall|t: Seq<char>| #[trigger] member_comb()(t) == member_fn()(t) by {
                lemma_member_comb(t);
            }
        }
        lemma_lift_refines(p.parser.parser.sep, token_fn(','), unit_view());
        lemma_lift_refines(p.parser.brac, token_fn('{'), unit_view());
        lemma_lift_refines(p.parser.ket, token_fn('}'), unit_view());
        assert(progresses(then_fn(token_fn(','), member_fn()))) by {
            assert forall|t: Seq<char>| #[trigger] then_fn(token_fn(','), member_fn())(t) is Some implies then_fn(token_fn(','), member_fn())(t)->Some_0.0.len() < t.len() by {
                lemma_token_len(',', t);
                if let Some(m) = token(',', t) {
                    lemma_member_progress(m);
                }
            }
        }
        assert(shrinks(member_fn())) by {
            assert forall|t: Seq<char>| #[trigger] member_fn()(t) is Some implies member_fn()(t)->Some_0.0.len() <= t.len() by {
                lemma_member_progress(t);
            }
        }
        assert(shrinks(string_fn())) by {
            assert forall|t: Seq<char>| #[trigger] string_fn()(t) is Some implies string_fn()(t)->Some_0.0.len() <= t.len() by {
                lemma_string_len(t);
            }
        }
        assert(shrinks(token_fn(','))) by {
            assert forall|t: Seq<char>| #[trigger] token_fn(',')(t) is Some implies token_fn(',')(t)->Some_0.0.len() <= t.len() by {
                lemma_token_len(',', t);
            }
        }
        assert(shrinks(token_fn(':'))) by {
            assert forall|t: Seq<char>| #[trigger] token_fn(':')(t) is Some implies token_fn(':')(t)->Some_0.0.len() <= t.len() by {
                lemma_token_len(':', t);
            }
        }
        assert(progresses(token_fn('{'))) by {
            assert forall|t: Seq<char>| #[trigger] token_fn('{')(t) is Some implies token_fn('{')(t)->Some_0.0.len() < t.len() by {
                lemma_token_len('{', t);
            }
        }
        assert(shrinks(ms_fn)) by {
            assert forall|t: Seq<char>| #[trigger] ms_fn(t) is Some implies ms_fn(t)->Some_0.0.len() <= t.len() by {
                lemma_members_sep(t);
                lemma_members_len(t);
            }
        }
        lemma_sep_by_refines(p.parser.parser, member_fn(), member_view_fn(), token_fn(','), unit_view());
        lemma_bracket_refines(p.parser, ms_fn, seq_view(member_view_fn()), token_fn('{'), unit_view(), token_fn('}'), unit_view());
        assert(forall|l: Vec<(String, Json)>| call_requires(collect, (l,)));
        lemma_map_refines(p, body, seq_view(member_view_fn()), |ms: Seq<Member>| collect_members(ms), seq_view(member_view_fn()));
        lemma_lift_below(mem.pb.b, n);
        lemma_total_below(mem.pb.a, n);
        lemma_seq_below(mem.pb, token_fn(':'), unit_view(), n);
        lemma_total_below(mem.pa, n);
        lemma_lift_a2_below(mem, string_fn(), string_view(), n);
        lemma_total_below(p.parser.parser.sep, n);
        lemma_sep_by_below(p.parser.parser, member_fn(), member_view_fn(), token_fn(','), unit_view(), n);
        lemma_bracket_below(p.parser, ms_fn, seq_view(member_view_fn()), token_fn('{'), unit_view(), n);
        lemma_map_below(p, n + 1);
        lemma_object_comb(s);
    }
    let r = parse_refined::<I, Vec<(String, Json)>, _, Seq<Member>>(&p, input, Ghost(object_comb()), Ghost(seq_view(member_view_fn())));
    proof {
        if r is Err {
            let e = r->Err_0;
            let jerr = |t: Seq<char>, e1: ParseErr| json_error(t, e1);
            let serr = |t: Seq<char>, e1: ParseErr| e1 == string_error(t);
            let colon_err = |t: Seq<char>, e1: ParseErr| e1 == token_err(':', t);
            let verr = |t: Seq<char>, e1: ParseErr| match token_fn(':')(t) {
                None => colon_err(t, e1),
                Some((m, _)) => jerr(m, e1),
            };
            let merr = |t: Seq<char>, e1: ParseErr| member_error(t, e1);
            let perr = |t: Seq<char>, e1: ParseErr| match member_fn()(t) {
                None => false,
                Some((m, _)) => sep_iterate_err(token_fn(','), member_fn(), merr, m, e1),
            };
            let berr = |t: Seq<char>, e1: ParseErr| e1 == token_err('{', t);
            let kerr = |t: Seq<char>, e1: ParseErr| e1 == token_err('}', t);
            assert(fn_errors(mem.pa.func, serr));
            lemma_lift_errors(mem.pa, serr);
            assert(fn_errors(mem.pb.a.func, colon_err));
            lemma_lift_errors(mem.pb.a, colon_err);
            assert(fn_errors(mem.pb.b.func, jerr));
            lemma_lift_errors(mem.pb.b, jerr);
            lemma_seq_errors(mem.pb, token_fn(':'), unit_view(), colon_err, jerr);
            lemma_lift_a2_errors(mem, string_fn(), string_view(), serr, verr);
            assert forall|t: Seq<char>, e1: ParseErr| #[trigger] mem.rejects(t, e1) implies merr(t, e1) by {
                lemma_string_len(t);
                if let Some((m1, k)) = string_spec(t) {
                    lemma_token_len(':', m1);
                }
            }
            lemma_sep_by_errors(p.parser.parser, member_fn(), member_view_fn(), token_fn(','), unit_view(), merr);
            assert(fn_errors(p.parser.brac.func, berr));
            lemma_lift_errors(p.parser.brac, berr);
            assert(fn_errors(p.parser.ket.func, kerr));
            lemma_lift_errors(p.parser.ket, kerr);
            lemma_bracket_errors(p.parser, ms_fn, seq_view(member_view_fn()), token_fn('{'), unit_view(), token_fn('}'), unit_view(), perr, berr, kerr);
            lemma_map_rejects(p, s, e);
            lemma_token_len('{', s);
            if let Some(m) = token('{', s) {
                lemma_members_sep(m);
                if let Some((m1, x)) = member(m) {
                    lemma_member_progress(m);
                    if members(m) is None {
                        lemma_members_tail_error(m1, e);
                    }
                }
            }
        }
    }
    proof {
        lemma_object_keyed(s);
    }
    r
}

/// Reads a JSON value: `null`, a boolean, a string, a number, an array or an
/// object, tried in that order.
pub fn json<I: Input<Item = char>>(input: I) -> (r: ParseResult<I, Json>)
    ensures
        match r {
            Ok((rest, v)) => json_spec(input.items()) == Some((rest.items(), v@)) && well_keyed(v@),
            Err(e) => json_spec(input.items()) is None && json_error(input.items(), e),
        },
    decreases input.items().len(), 1nat,
{
    let ghost n = input.items().len();
    let mk_null = |_u: ()| -> (j: Json)
        ensures
            j@ == JsonValue::Null,
        { Json::JNull { value: Null {} } };
    let mk_bool = |b: bool| -> (j: Json)
        ensures
            j@ == JsonValue::Bool(b),
        { Json::JBool { value: b } };
    let mk_string = |x: String| -> (j: Json)
        ensures
            j@ == JsonValue::Str(x@),
        { Json::JString { value: x } };
    let mk_number = |x: String| -> (j: Json)
        ensures
            j@ == JsonValue::Number(x@),
        { Json::JNumber { value: x } };
    let mk_array = |x: Vec<Json>| -> (j: Json)
        ensures
            j@ == JsonValue::Array(seq_view(json_view_fn())(x)),
        {
            let j = Json::JArray { value: x };
            assert(j@ == JsonValue::Array(seq_view(json_view_fn())(x))) by {
                let a = json_view(j)->Array_0;
                assert(a.len() == x@.len());
                assert forall|k: int| 0 <= k < a.len() implies a[k] == json_view(x@[k]) by {}
                assert(seq_view(json_view_fn())(x) =~= a);
            }
            j
        };
    let mk_object = |x: Vec<(String, Json)>| -> (j: Json)
        ensures
            j@ == JsonValue::Object(seq_view(member_view_fn())(x)),
        {
            let j = Json::JObject { value: x };
            assert(j@ == JsonValue::Object(seq_view(member_view_fn())(x))) by {
                let a = json_view(j)->Object_0;
                assert(a.len() == x@.len());
                assert forall|k: int| 0 <= k < a.len() implies a[k] == (x@[k].0@, json_view(x@[k].1)) by {}
                assert(seq_view(member_view_fn())(x) =~= a);
            }
            j
        };
    let arr = |i: I| -> (r: ParseResult<I, Vec<Json>>)
        requires
            i.items().len() <= n,
        ensures
            match r {
                Ok((rest, vs)) => array_spec(i.items()) == Some((rest.items(), seq_view(json_view_fn())(vs))),
                Err(e) => array_spec(i.items()) is None && array_error(i.items(), e),
            },
        { jarray(i) };
    let obj = |i: I| -> (r: ParseResult<I, Vec<(String, Json)>>)
        requires
            i.items().len() <= n,
        ensures
            match r {
                Ok((rest, ms)) => object_spec(i.items()) == Some((rest.items(), seq_view(member_view_fn())(ms))),
                Err(e) => object_spec(i.items()) is None && object_error(i.items(), e),
            },
        { jobject(i) };
    let p = lift(jnull).map(mk_null).or(lift(jbool).map(mk_bool)).or(lift(jstring).map(mk_string)).or(
        lift(jnumber).map(mk_number),
    ).or(lift(arr).map(mk_array)).or(lift(obj).map(mk_object));
    let ghost s = input.items();
    let ghost null_fn = |t: Seq<char>| match literal_rest("null"@, t) {
        Some(r) => Some((r, ())),
        None => None,
    };
    let ghost bool_fn = |t: Seq<char>| bool_spec(t);
    let ghost number_fn = |t: Seq<char>| number_spec(t);
    let ghost array_fn = |t: Seq<char>| array_spec(t);
    let ghost object_fn = |t: Seq<char>| object_spec(t);
    let ghost fa = map_fn(null_fn, |u: ()| JsonValue::Null);
    let ghost fb = map_fn(bool_fn, |b: bool| JsonValue::Bool(b));
    let ghost fc = map_fn(string_fn(), |cs: Seq<char>| JsonValue::Str(cs));
    let ghost fd = map_fn(number_fn, |t: Seq<char>| JsonValue::Number(t));
    let ghost fe = map_fn(array_fn, |vs: Seq<JsonValue>| JsonValue::Array(vs));
    let ghost ffn = map_fn(object_fn, |ms: Seq<Member>| JsonValue::Object(ms));
    let ghost all = or_fn(or_fn(or_fn(or_fn(or_fn(fa, fb), fc), fd), fe), ffn);
    proof {
        lemma_readers_refine::<I>();
        assert(fn_refines(jnull::<I>, null_fn, unit_view()));
        assert(forall|i: I| call_requires(jnull::<I>, (i,)));
        assert(fn_refines(jbool::<I>, bool_fn, id_view()));
        assert(forall|i: I| call_requires(jbool::<I>, (i,)));
        assert(fn_refines(jnumber::<I>, number_fn, string_view()));
        assert(forall|i: I| call_requires(jnumber::<I>, (i,)));
        assert(fn_refines(arr, array_fn, seq_view(json_view_fn())));

        assert(fn_refines(obj, object_fn, seq_view(member_view_fn())));

        let pa = p.f.f.f.f.f;
        let pb = p.f.f.f.f.g;
        let pc = p.f.f.f.g;
        let pd = p.f.f.g;
        let pe = p.f.g;
        let pf = p.g;
        lemma_lift_refines(pa.parser, null_fn, unit_view());
        lemma_lift_refines(pb.parser, bool_fn, id_view());
        lemma_lift_refines(pc.parser, string_fn(), string_view());
        lemma_lift_refines(pd.parser, number_fn, string_view());
        lemma_lift_refines(pe.parser, array_fn, seq_view(json_view_fn()));
        lemma_lift_refines(pf.parser, object_fn, seq_view(member_view_fn()));
        assert(forall|u: ()| call_requires(mk_null, (u,)));
        assert(forall|b: bool| call_requires(mk_bool, (b,)));
        assert(forall|x: String| call_requires(mk_string, (x,)));
        assert(forall|x: String| call_requires(mk_number, (x,)));
        assert(forall|x: Vec<Json>| call_requires(mk_array, (x,)));
        assert(forall|x: Vec<(String, Json)>| call_requires(mk_object, (x,)));
        lemma_map_refines(pa, null_fn, unit_view(), |u: ()| JsonValue::Null, json_view_fn());
        lemma_map_refines(pb, bool_fn, id_view(), |b: bool| JsonValue::Bool(b), json_view_fn());
        lemma_map_refines(pc, string_fn(), string_view(), |cs: Seq<char>| JsonValue::Str(cs), json_view_fn());
        lemma_map_refines(pd, number_fn, string_view(), |t: Seq<char>| JsonValue::Number(t), json_view_fn());
        lemma_map_refines(pe, array_fn, seq_view(json_view_fn()), |vs: Seq<JsonValue>| JsonValue::Array(vs), json_view_fn());
        lemma_map_refines(pf, object_fn, seq_view(member_view_fn()), |ms: Seq<Member>| JsonValue::Object(ms), json_view_fn());
        lemma_or_refines(p.f.f.f.f, fa, fb, json_view_fn());
        lemma_or_refines(p.f.f.f, or_fn(fa, fb), fc, json_view_fn());
        lemma_or_refines(p.f.f, or_fn(or_fn(fa, fb), fc), fd, json_view_fn());
        lemma_or_refines(p.f, or_fn(or_fn(or_fn(fa, fb), fc), fd), fe, json_view_fn());
        lemma_or_refines(p, or_fn(or_fn(or_fn(or_fn(fa, fb), fc), fd), fe), ffn, json_view_fn());
        lemma_total_below(pa.parser, n + 1);
        lemma_total_below(pb.parser, n + 1);
        lemma_total_below(pc.parser, n + 1);
        lemma_total_below(pd.parser, n + 1);
        lemma_lift_below(pe.parser, n + 1);
        lemma_lift_below(pf.parser, n + 1);
        lemma_map_below(pa, n + 1);
        lemma_map_below(pb, n + 1);
        lemma_map_below(pc, n + 1);
        lemma_map_below(pd, n + 1);
        lemma_map_below(pe, n + 1);
        lemma_map_below(pf, n + 1);
        lemma_or_below(p.f.f.f.f, n + 1);
        lemma_or_below(p.f.f.f, n + 1);
        lemma_or_below(p.f.f, n + 1);
        lemma_or_below(p.f, n + 1);
        lemma_or_below(p, n + 1);
        assert(all(s) == json_spec(s));
    }
    let r = parse_refined::<I, Json, _, JsonValue>(&p, input, Ghost(all), Ghost(json_view_fn()));
    proof {
        if r is Err {
            let e = r->Err_0;
            let oerr = |t: Seq<char>, e1: ParseErr| object_error(t, e1);
            lemma_or_rejects(p, s, e);
            lemma_map_rejects(p.g, s, e);
            assert(fn_errors(p.g.parser.func, oerr));
            lemma_lift_errors(p.g.parser, oerr);
        }
    }
    proof {
        lemma_json_keyed(s);
    }
    r
}

// ------------------------------------------------------------------ laws

/// Skipping whitespace leaves what follows the leading whitespace of `s`:
/// every character it skips is whitespace, what it leaves does not start
/// with whitespace, and skipping again changes nothing.
pub proof fn lemma_skip_ws_law(s: Seq<char>)
    ensures
        skip_ws(s).len() <= s.len(),
        skip_ws(s) == s.skip(s.len() - skip_ws(s).len()),
        forall|i: int| 0 <= i < s.len() - skip_ws(s).len() ==> is_ws(#[trigger] s[i]),
        !(skip_ws(s).len() > 0 && is_ws(skip_ws(s)[0])),
        skip_ws(skip_ws(s)) == skip_ws(s),
    decreases s.len(),
{
    if s.len() > 0 && is_ws(s[0]) {
        let t = s.drop_first();
        lemma_skip_ws_law(t);
        assert(t.skip(t.len() - skip_ws(t).len()) =~= s.skip(s.len() - skip_ws(s).len()));
        assert forall|i: int| 0 <= i < s.len() - skip_ws(s).len() implies is_ws(#[trigger] s[i]) by {
            if i > 0 {
                assert(s[i] == t[i - 1]);
            }
        }
    } else {
        assert(s.skip(0) =~= s);
    }
}

/// Whitespace in front of `s` is skipped as if it were not there.
pub proof fn lemma_skip_ws_prefix(w: Seq<char>, s: Seq<char>)
    requires
        forall|i: int| 0 <= i < w.len() ==> is_ws(#[trigger] w[i]),
    ensures
        skip_ws(w + s) == skip_ws(s),
    decreases w.len(),
{
    if w.len() > 0 {
        assert((w + s)[0] == w[0]);
        assert((w + s).drop_first() =~= w.drop_first() + s);
        lemma_skip_ws_prefix(w.drop_first(), s);
    } else {
        assert(w + s =~= s);
    }
}

/// An array or an object reads the same whatever whitespace stands in front
/// of it.
pub proof fn lemma_leading_ws_ignored(w: Seq<char>, s: Seq<char>)
    requires
        forall|i: int| 0 <= i < w.len() ==> is_ws(#[trigger] w[i]),
    ensures
        array_spec(w + s) == array_spec(s),
        object_spec(w + s) == object_spec(s),
{
    lemma_skip_ws_prefix(w, s);
    lemma_token_len('[', s);
    lemma_token_len('{', s);
}

/// The text of a number is exactly what it reads: the text followed by what
/// is left is the input, and the text is not empty.
pub proof fn lemma_number_text(s: Seq<char>)
    ensures
        number_spec(s) matches Some((r, t)) ==> t + r == s && t.len() > 0,
{
    lemma_number_len(s);
    if number_spec(s) is Some {
        let n = number_len(s)->Some_0;
        assert(s.take(n as int) + s.skip(n as int) =~= s);
    }
}

/// Some member of `ms` has the key `k`.
pub open spec fn has_key(ms: Seq<Member>, k: Seq<char>) -> bool {
    exists|i: int| 0 <= i < ms.len() && #[trigger] ms[i].0 == k
}

/// No two members of `ms` have the same key.
pub open spec fn keys_unique(ms: Seq<Member>) -> bool {
    forall|i: int, j: int| 0 <= i < j < ms.len() ==> #[trigger] ms[i].0 != #[trigger] ms[j].0
}

/// The value of the last member of `ms` with the key `k`.
pub open spec fn last_value(ms: Seq<Member>, k: Seq<char>) -> JsonValue
    decreases ms.len(),
{
    if ms.len() == 0 {
        JsonValue::Null
    } else if ms.last().0 == k {
        ms.last().1
    } else {
        last_value(ms.drop_last(), k)
    }
}

/// An object keeps each key once, keeps every key it read and no other, and
/// gives each key the value it was given last.
pub proof fn lemma_collect_members(ms: Seq<Member>)
    ensures
        keys_unique(collect_members(ms)),
        forall|k: Seq<char>| has_key(collect_members(ms), k) <==> has_key(ms, k),
        forall|j: int|
            0 <= j < collect_members(ms).len() ==> #[trigger] collect_members(ms)[j].1 == last_value(
                ms,
                collect_members(ms)[j].0,
            ),
    decreases ms.len(),
{
    if ms.len() > 0 {
        let init = ms.drop_last();
        let (k, v) = ms.last();
        let prev = collect_members(init);
        lemma_collect_members(init);
        lemma_key_index_bound(prev, k);
        let res = collect_members(ms);
        assert(res == put_member(prev, k, v));
        assert forall|k2: Seq<char>| has_key(ms, k2) <==> has_key(init, k2) || k2 == k by {
            if has_key(ms, k2) {
                let i = choose|i: int| 0 <= i < ms.len() && #[trigger] ms[i].0 == k2;
                if i < init.len() {
                    assert(init[i].0 == k2);
                }
            }
            if has_key(init, k2) {
                let i = choose|i: int| 0 <= i < init.len() && #[trigger] init[i].0 == k2;
                assert(ms[i].0 == k2);
            }
            if k2 == k {
                assert(ms[ms.len() - 1].0 == k2);
            }
        }
        match key_index(prev, k) {
            Some(j) => {
                assert forall|k2: Seq<char>| has_key(res, k2) <==> has_key(prev, k2) by {
                    if has_key(res, k2) {
                        let i = choose|i: int| 0 <= i < res.len() && #[trigger] res[i].0 == k2;
                        assert(prev[i].0 == k2);
                    }
                    if has_key(prev, k2) {
                        let i = choose|i: int| 0 <= i < prev.len() && #[trigger] prev[i].0 == k2;
                        assert(res[i].0 == k2);
                    }
                }
                assert(has_key(prev, k)) by {
                    assert(prev[j].0 == k);
                }
            },
            None => {
                lemma_key_index_none(prev, k);
                assert forall|k2: Seq<char>| has_key(res, k2) <==> has_key(prev, k2) || k2 == k by {
                    if has_key(res, k2) {
                        let i = choose|i: int| 0 <= i < res.len() && #[trigger] res[i].0 == k2;
                        if i < prev.len() {
                            assert(prev[i].0 == k2);
                        }
                    }
                    if has_key(prev, k2) {
                        let i = choose|i: int| 0 <= i < prev.len() && #[trigger] prev[i].0 == k2;
                        assert(res[i].0 == k2);
                    }
                    if k2 == k {
                        assert(res[res.len() - 1].0 == k2);
                    }
                }
            },
        }
    }
}

proof fn lemma_key_index_none(ms: Seq<Member>, k: Seq<char>)
    requires
        key_index(ms, k) is None,
    ensures
        !has_key(ms, k),
    decreases ms.len(),
{
    if ms.len() > 0 {
        lemma_key_index_none(ms.drop_first(), k);
        if has_key(ms, k) {
            let i = choose|i: int| 0 <= i < ms.len() && #[trigger] ms[i].0 == k;
            assert(i > 0);
            assert(ms.drop_first()[i - 1].0 == k);
        }
    }
}

/// What is left after skipping `k` characters is what is left of `s`.
proof fn lemma_skip_suffix(s: Seq<char>, k: int)
    requires
        0 <= k <= s.len(),
    ensures
        is_suffix(s.skip(k), s),
{
}

proof fn lemma_token_suffix(c: char, s: Seq<char>)
    ensures
        token(c, s) matches Some(r) ==> is_suffix(r, s),
{
    lemma_skip_ws_law(s);
    let t = skip_ws(s);
    if t.len() > 0 && t[0] == c {
        lemma_skip_ws_law(t.drop_first());
        lemma_suffix_drop_first(t);
        lemma_suffix_trans(t.drop_first(), t, s);
        lemma_suffix_trans(skip_ws(t.drop_first()), t.drop_first(), s);
    }
}

proof fn lemma_literal_suffix(t: Seq<char>, s: Seq<char>)
    ensures
        match_literal(t, s) matches Ok(r) ==> is_suffix(r, s),
{
    lemma_literal_prefix(t, s);
    if t.is_prefix_of(s) {
        lemma_skip_suffix(s, t.len() as int);
    }
}

proof fn lemma_iterate_suffix<A>(f: spec_fn(Seq<char>) -> Option<(Seq<char>, A)>, s: Seq<char>)
    requires
        forall|t: Seq<char>| #[trigger] f(t) matches Some((r, _)) ==> is_suffix(r, t),
    ensures
        is_suffix(iterate(f, s).0, s),
    decreases s.len(),
{
    match f(s) {
        Some((r, a)) => if r.len() < s.len() {
            lemma_iterate_suffix(f, r);
            lemma_suffix_trans(iterate(f, r).0, r, s);
        } else {
            lemma_suffix_refl(s);
        },
        None => {
            lemma_suffix_refl(s);
        },
    }
}

proof fn lemma_string_suffix(s: Seq<char>)
    ensures
        string_spec(s) matches Some((r, _)) ==> is_suffix(r, s),
{
    assert forall|t: Seq<char>| (#[trigger] string_char_fn()(t)) is Some implies is_suffix(string_char_fn()(t)->Some_0.0, t) by {
        if t.len() > 0 && unescaped_char(t[0]) {
            lemma_suffix_drop_first(t);
        } else if t.len() >= 2 && t[0] == '\\' {
            lemma_skip_suffix(t, 2);
            let u = t.skip(2);
            if u.len() >= 4 {
                lemma_skip_suffix(u, 4);
                lemma_suffix_trans(u.skip(4), u, t);
            }
        }
    }
    if s.len() > 0 && s[0] == '"' {
        let body = s.drop_first();
        lemma_iterate_suffix(string_char_fn(), body);
        let r = iterate(string_char_fn(), body).0;
        lemma_suffix_drop_first(s);
        if r.len() > 0 {
            lemma_suffix_drop_first(r);
            lemma_suffix_trans(r, body, s);
            lemma_suffix_trans(r.drop_first(), r, s);
        }
    }
}

/// A JSON value is read from the front of the input: what is left is the
/// rest of the input after it.
pub proof fn lemma_json_suffix(s: Seq<char>)
    ensures
        json_spec(s) matches Some((r, _)) ==> is_suffix(r, s),
    decreases s.len(), 2nat,
{
    reveal_strlit("null");
    reveal_strlit("true");
    reveal_strlit("false");
    lemma_literal_suffix("null"@, s);
    lemma_literal_suffix("true"@, s);
    lemma_literal_suffix("false"@, s);
    lemma_string_suffix(s);
    lemma_number_len(s);
    if let Some(n) = number_len(s) {
        lemma_skip_suffix(s, n as int);
    }
    lemma_array_suffix(s);
    lemma_object_suffix(s);
}

proof fn lemma_array_suffix(s: Seq<char>)
    ensures
        array_spec(s) matches Some((r, _)) ==> is_suffix(r, s),
    decreases s.len(), 1nat,
{
    lemma_token_suffix('[', s);
    if let Some(m) = token('[', s) {
        if m.len() < s.len() {
            lemma_elements_suffix(m);
            if let Some((m2, vs)) = elements(m) {
                lemma_token_suffix(']', m2);
                if let Some(r) = token(']', m2) {
                    lemma_suffix_trans(m2, m, s);
                    lemma_suffix_trans(r, m2, s);
                }
            }
        }
    }
}

proof fn lemma_elements_suffix(m: Seq<char>)
    ensures
        elements(m) matches Some((r, _)) ==> is_suffix(r, m),
    decreases m.len(), 3nat,
{
    lemma_json_suffix(m);
    match json_spec(m) {
        None => {
            lemma_suffix_refl(m);
        },
        Some((m2, v)) => if m2.len() < m.len() {
            lemma_elements_tail_suffix(m2);
            if let Some((r, vs)) = elements_tail(m2) {
                lemma_suffix_trans(r, m2, m);
            }
        },
    }
}

proof fn lemma_elements_tail_suffix(m: Seq<char>)
    ensures
        elements_tail(m) matches Some((r, _)) ==> is_suffix(r, m),
    decreases m.len(), 3nat,
{
    lemma_token_suffix(',', m);
    match token(',', m) {
        None => {
            lemma_suffix_refl(m);
        },
        Some(m1) => if m1.len() < m.len() {
            lemma_json_suffix(m1);
            if let Some((m2, v)) = json_spec(m1) {
                if m2.len() < m.len() {
                    lemma_elements_tail_suffix(m2);
                    lemma_suffix_trans(m2, m1, m);
                    if let Some((r, vs)) = elements_tail(m2) {
                        lemma_suffix_trans(r, m2, m);
                    }
                }
            }
        },
    }
}

proof fn lemma_object_suffix(s: Seq<char>)
    ensures
        object_spec(s) matches Some((r, _)) ==> is_suffix(r, s),
    decreases s.len(), 1nat,
{
    lemma_token_suffix('{', s);
    if let Some(m) = token('{', s) {
        if m.len() < s.len() {
            lemma_members_suffix(m);
            if let Some((m2, ms)) = members(m) {
                lemma_token_suffix('}', m2);
                if let Some(r) = token('}', m2) {
                    lemma_suffix_trans(m2, m, s);
                    lemma_suffix_trans(r, m2, s);
                }
            }
        }
    }
}

proof fn lemma_member_suffix(m: Seq<char>)
    ensures
        member(m) matches Some((r, _)) ==> is_suffix(r, m),
    decreases m.len(), 3nat,
{
    lemma_string_suffix(m);
    if let Some((m1, k)) = string_spec(m) {
        lemma_token_suffix(':', m1);
        if let Some(m2) = token(':', m1) {
            if m2.len() < m.len() {
                lemma_json_suffix(m2);
                lemma_suffix_trans(m2, m1, m);
                if let Some((m3, v)) = json_spec(m2) {
                    lemma_suffix_trans(m3, m2, m);
                }
            }
        }
    }
}

proof fn lemma_members_suffix(m: Seq<char>)
    ensures
        members(m) matches Some((r, _)) ==> is_suffix(r, m),
    decreases m.len(), 4nat,
{
    lemma_member_suffix(m);
    match member(m) {
        None => {
            lemma_suffix_refl(m);
        },
        Some((m2, x)) => if m2.len() < m.len() {
            lemma_members_tail_suffix(m2);
            if let Some((r, xs)) = members_tail(m2) {
                lemma_suffix_trans(r, m2, m);
            }
        },
    }
}

proof fn lemma_members_tail_suffix(m: Seq<char>)
    ensures
        members_tail(m) matches Some((r, _)) ==> is_suffix(r, m),
    decreases m.len(), 4nat,
{
    lemma_token_suffix(',', m);
    match token(',', m) {
        None => {
            lemma_suffix_refl(m);
        },
        Some(m1) => if m1.len() < m.len() {
            lemma_member_suffix(m1);
            if let Some((m2, x)) = member(m1) {
                if m2.len() < m.len() {
                    lemma_members_tail_suffix(m2);
                    lemma_suffix_trans(m2, m1, m);
                    if let Some((r, xs)) = members_tail(m2) {
                        lemma_suffix_trans(r, m2, m);
                    }
                }
            }
        },
    }
}

// ------------------------------------------------------------ distinct keys

/// Every object in `v`, at any depth, has each key once.
pub open spec fn well_keyed(v: JsonValue) -> bool
    decreases v,
{
    match v {
        JsonValue::Object(ms) => keys_unique(ms) && forall|k: int|
            0 <= k < ms.len() ==> {
                proof {
                    assert(decreases_to!(ms => ms[k]));
                    assert(decreases_to!(ms[k] => ms[k].1));
                }
                well_keyed(#[trigger] ms[k].1)
            },
        JsonValue::Array(vs) => forall|k: int|
            0 <= k < vs.len() ==> {
                proof {
                    assert(decreases_to!(vs => vs[k]));
                }
                well_keyed(#[trigger] vs[k])
            },
        _ => true,
    }
}

/// Every value in `vs` is well keyed.
pub open spec fn values_keyed(vs: Seq<JsonValue>) -> bool {
    forall|k: int| 0 <= k < vs.len() ==> well_keyed(#[trigger] vs[k])
}

/// The value of every member of `ms` is well keyed.
pub open spec fn members_keyed(ms: Seq<Member>) -> bool {
    forall|k: int| 0 <= k < ms.len() ==> well_keyed(#[trigger] ms[k].1)
}

/// The last value given to a key that occurs in `ms` is one of the values
/// in `ms`.
proof fn lemma_last_value_in(ms: Seq<Member>, k: Seq<char>)
    requires
        has_key(ms, k),
    ensures
        exists|i: int| 0 <= i < ms.len() && #[trigger] ms[i].1 == last_value(ms, k),
    decreases ms.len(),
{
    if ms.last().0 != k {
        let i = choose|i: int| 0 <= i < ms.len() && #[trigger] ms[i].0 == k;
        assert(ms.drop_last()[i].0 == k);
        lemma_last_value_in(ms.drop_last(), k);
        let j = choose|j: int| 0 <= j < ms.drop_last().len() && #[trigger] ms.drop_last()[j].1 == last_value(ms.drop_last(), k);
        assert(ms[j].1 == last_value(ms, k));
    } else {
        assert(ms[ms.len() - 1].1 == last_value(ms, k));
    }
}

/// Collecting well-keyed members gives each key once and keeps the values
/// well keyed.
proof fn lemma_collect_keyed(ms: Seq<Member>)
    requires
        members_keyed(ms),
    ensures
        keys_unique(collect_members(ms)),
        members_keyed(collect_members(ms)),
{
    lemma_collect_members(ms);
    let c = collect_members(ms);
    assert forall|j: int| 0 <= j < c.len() implies well_keyed(#[trigger] c[j].1) by {
        assert(has_key(c, c[j].0));
        lemma_last_value_in(ms, c[j].0);
    }
}

proof fn lemma_prepend_values(v: JsonValue, vs: Seq<JsonValue>)
    requires
        well_keyed(v),
        values_keyed(vs),
    ensures
        values_keyed(seq![v] + vs),
{
    assert forall|k: int| 0 <= k < (seq![v] + vs).len() implies well_keyed(#[trigger] (seq![v] + vs)[k]) by {
        if k > 0 {
            assert((seq![v] + vs)[k] == vs[k - 1]);
        }
    }
}

proof fn lemma_prepend_members(x: Member, xs: Seq<Member>)
    requires
        well_keyed(x.1),
        members_keyed(xs),
    ensures
        members_keyed(seq![x] + xs),
{
    assert forall|k: int| 0 <= k < (seq![x] + xs).len() implies well_keyed(#[trigger] (seq![x] + xs)[k].1) by {
        if k > 0 {
            assert((seq![x] + xs)[k] == xs[k - 1]);
        }
    }
}

/// Every object in a JSON value read from `s`, at any depth, has each key
/// once.
pub proof fn lemma_json_keyed(s: Seq<char>)
    ensures
        json_spec(s) matches Some((_, v)) ==> well_keyed(v),
    decreases s.len(), 2nat,
{
    lemma_array_keyed(s);
    lemma_object_keyed(s);
}

proof fn lemma_array_keyed(s: Seq<char>)
    ensures
        array_spec(s) matches Some((_, vs)) ==> values_keyed(vs),
    decreases s.len(), 1nat,
{
    if let Some(m) = token('[', s) {
        if m.len() < s.len() {
            lemma_elements_keyed(m);
        }
    }
}

proof fn lemma_elements_keyed(m: Seq<char>)
    ensures
        elements(m) matches Some((_, vs)) ==> values_keyed(vs),
    decreases m.len(), 3nat,
{
    lemma_json_keyed(m);
    if let Some((m2, v)) = json_spec(m) {
        if m2.len() < m.len() {
            lemma_elements_tail_keyed(m2);
            if let Some((r, vs)) = elements_tail(m2) {
                lemma_prepend_values(v, vs);
            }
        }
    }
}

proof fn lemma_elements_tail_keyed(m: Seq<char>)
    ensures
        elements_tail(m) matches Some((_, vs)) ==> values_keyed(vs),
    decreases m.len(), 3nat,
{
    if let Some(m1) = token(',', m) {
        if m1.len() < m.len() {
            lemma_json_keyed(m1);
            if let Some((m2, v)) = json_spec(m1) {
                if m2.len() < m.len() {
                    lemma_elements_tail_keyed(m2);
                    if let Some((r, vs)) = elements_tail(m2) {
                        lemma_prepend_values(v, vs);
                    }
                }
            }
        }
    }
}

/// Every object read from `s` has each key once, and so do the objects in
/// its values, at any depth.
pub proof fn lemma_object_keyed(s: Seq<char>)
    ensures
        object_spec(s) matches Some((_, ms)) ==> keys_unique(ms) && members_keyed(ms),
    decreases s.len(), 1nat,
{
    if let Some(m) = token('{', s) {
        if m.len() < s.len() {
            lemma_members_keyed(m);
            if let Some((m2, ms)) = members(m) {
                lemma_collect_keyed(ms);
            }
        }
    }
}

proof fn lemma_member_keyed(m: Seq<char>)
    ensures
        member(m) matches Some((_, x)) ==> well_keyed(x.1),
    decreases m.len(), 3nat,
{
    if let Some((m1, k)) = string_spec(m) {
        if let Some(m2) = token(':', m1) {
            if m2.len() < m.len() {
                lemma_json_keyed(m2);
            }
        }
    }
}

proof fn lemma_members_keyed(m: Seq<char>)
    ensures
        members(m) matches Some((_, xs)) ==> members_keyed(xs),
    decreases m.len(), 4nat,
{
    lemma_member_keyed(m);
    if let Some((m2, x)) = member(m) {
        if m2.len() < m.len() {
            lemma_members_tail_keyed(m2);
            if let Some((r, xs)) = members_tail(m2) {
                lemma_prepend_members(x, xs);
            }
        }
    }
}

proof fn lemma_members_tail_keyed(m: Seq<char>)
    ensures
        members_tail(m) matches Some((_, xs)) ==> members_keyed(xs),
    decreases m.len(), 4nat,
{
    if let Some(m1) = token(',', m) {
        if m1.len() < m.len() {
            lemma_member_keyed(m1);
            if let Some((m2, x)) = member(m1) {
                if m2.len() < m.len() {
                    lemma_members_tail_keyed(m2);
                    if let Some((r, xs)) = members_tail(m2) {
                        lemma_prepend_members(x, xs);
                    }
                }
            }
        }
    }
}

// ------------------------------------------------------------ single errors

/// A value at the front of `s` fails in one way only: `json_error` allows
/// one error.
pub proof fn lemma_json_error_unique(s: Seq<char>, e1: ParseErr, e2: ParseErr)
    requires
        json_error(s, e1),
        json_error(s, e2),
    ensures
        e1 == e2,
    decreases s.len(), 2nat,
{
    lemma_object_error_unique(s, e1, e2);
}

/// An object at the front of `s` fails in one way only: `object_error`
/// allows one error.
pub proof fn lemma_object_error_unique(s: Seq<char>, e1: ParseErr, e2: ParseErr)
    requires
        object_error(s, e1),
        object_error(s, e2),
    ensures
        e1 == e2,
    decreases s.len(), 1nat,
{
    if let Some(m) = token('{', s) {
        if members(m) is None {
            lemma_members_error_unique(m, e1, e2);
        }
    }
}

proof fn lemma_members_error_unique(m: Seq<char>, e1: ParseErr, e2: ParseErr)
    requires
        members_error(m, e1),
        members_error(m, e2),
    ensures
        e1 == e2,
    decreases m.len(), 4nat,
{
    if let Some((m2, _)) = member(m) {
        lemma_members_tail_error_unique(m2, e1, e2);
    }
}

proof fn lemma_members_tail_error_unique(m: Seq<char>, e1: ParseErr, e2: ParseErr)
    requires
        members_tail_error(m, e1),
        members_tail_error(m, e2),
    ensures
        e1 == e2,
    decreases m.len(), 4nat,
{
    if let Some(m1) = token(',', m) {
        match member(m1) {
            None => {
                lemma_member_error_unique(m1, e1, e2);
            },
            Some((m2, _)) => {
                lemma_members_tail_error_unique(m2, e1, e2);
            },
        }
    }
}

proof fn lemma_member_error_unique(m: Seq<char>, e1: ParseErr, e2: ParseErr)
    requires
        member_error(m, e1),
        member_error(m, e2),
    ensures
        e1 == e2,
    decreases m.len(), 3nat,
{
    if let Some((m1, _)) = string_spec(m) {
        if let Some(m2) = token(':', m1) {
            lemma_json_error_unique(m2, e1, e2);
        }
    }
}

/// What `json` reads is the first of `null`, a boolean, a string, a number,
/// an array and an object that can be read at the front of `s`, and where
/// none can, `json` fails with the one error reading an object gives.
pub proof fn lemma_json_is_ordered_choice(s: Seq<char>, e1: ParseErr, e2: ParseErr)
    ensures
        json_spec(s) == (if literal_rest("null"@, s) is Some {
            Some((literal_rest("null"@, s)->Some_0, JsonValue::Null))
        } else if bool_spec(s) is Some {
            Some((bool_spec(s)->Some_0.0, JsonValue::Bool(bool_spec(s)->Some_0.1)))
        } else if string_spec(s) is Some {
            Some((string_spec(s)->Some_0.0, JsonValue::Str(string_spec(s)->Some_0.1)))
        } else if number_spec(s) is Some {
            Some((number_spec(s)->Some_0.0, JsonValue::Number(number_spec(s)->Some_0.1)))
        } else if array_spec(s) is Some {
            Some((array_spec(s)->Some_0.0, JsonValue::Array(array_spec(s)->Some_0.1)))
        } else if object_spec(s) is Some {
            Some((object_spec(s)->Some_0.0, JsonValue::Object(object_spec(s)->Some_0.1)))
        } else {
            None
        }),
        json_error(s, e1) && object_error(s, e2) ==> e1 == e2,
{
    if json_error(s, e1) && object_error(s, e2) {
        lemma_object_error_unique(s, e1, e2);
    }
}

// ------------------------------------------------------------ plain strings

/// A character that stands in a string as it is: not a control character,
/// not `"` (0x22) and not `\` (0x5C).
pub open spec fn plain_char(c: char) -> bool {
    c as u32 >= 0x20 && c as u32 != 0x22 && c as u32 != 0x5C
}

/// Reading the characters of a string body made of the plain characters `t`,
/// followed by `u`, which starts with `"`, reads `t` and stops at `u`.
proof fn lemma_plain_body(t: Seq<char>, u: Seq<char>)
    requires
        forall|k: int| 0 <= k < t.len() ==> plain_char(#[trigger] t[k]),
        u.len() > 0,
        u[0] == '"',
    ensures
        iterate(string_char_fn(), t + u) == (u, t),
    decreases t.len(),
{
    if t.len() == 0 {
        assert(t + u =~= u);
        assert(string_char_fn()(u) is None);
        assert(t =~= Seq::<char>::empty());
    } else {
        let c = t[0];
        assert(plain_char(c));
        vstd::utf8::char_is_scalar(c);
        assert(unescaped_char(c));
        assert((t + u)[0] == c);
        assert((t + u).drop_first() =~= t.drop_first() + u);
        assert(string_char_fn()(t + u) == Some(((t + u).drop_first(), c)));
        lemma_plain_body(t.drop_first(), u);
        assert(seq![c] + t.drop_first() =~= t);
    }
}

/// Quoting a string of plain characters and reading it back gives the
/// string, and leaves exactly what followed the closing quote.
pub proof fn lemma_string_round_trip(t: Seq<char>, r: Seq<char>)
    requires
        forall|k: int| 0 <= k < t.len() ==> plain_char(#[trigger] t[k]),
    ensures
        string_spec(seq!['"'] + t + seq!['"'] + r) == Some((r, t)),
{
    let s = seq!['"'] + t + seq!['"'] + r;
    let u = seq!['"'] + r;
    assert(s.drop_first() =~= t + u);
    lemma_plain_body(t, u);
    assert(u.drop_first() =~= r);
}

// ------------------------------------------------------- the number grammar

/// `y` starts with a decimal digit.
pub open spec fn starts_with_digit(y: Seq<char>) -> bool {
    y.len() > 0 && '0' <= y[0] && y[0] <= '9'
}

/// Every character of `d` is a decimal digit.
pub open spec fn digits_only(d: Seq<char>) -> bool {
    forall|k: int| 0 <= k < d.len() ==> '0' <= #[trigger] d[k] && d[k] <= '9'
}

/// An integer part: a single `0`, or a digit from 1 to 9 and digits after it.
pub open spec fn int_shape(n: Seq<char>) -> bool {
    n == seq!['0'] || (n.len() > 0 && '1' <= n[0] && n[0] <= '9' && digits_only(n.drop_first()))
}

/// A fraction, possibly absent: nothing, or `.` and one or more digits.
pub open spec fn frac_shape(f: Seq<char>) -> bool {
    f.len() == 0 || (f.len() >= 2 && f[0] == '.' && digits_only(f.drop_first()))
}

/// An exponent, possibly absent: nothing, or `e` or `E`, then `-`, `+` or no
/// sign, then one or more digits.
pub open spec fn exp_shape(x: Seq<char>) -> bool {
    x.len() == 0 || (x.len() >= 2 && (x[0] == 'e' || x[0] == 'E') && {
        let t = x.drop_first();
        ||| (t[0] == '-' || t[0] == '+') && t.len() >= 2 && digits_only(t.drop_first())
        ||| digits_only(t)
    })
}

/// A run of digits followed by something that does not start with a digit
/// is read whole.
proof fn lemma_digit_run_concat(d: Seq<char>, y: Seq<char>)
    requires
        digits_only(d),
        !starts_with_digit(y),
    ensures
        digit_run(d + y) == d.len(),
    decreases d.len(),
{
    if d.len() == 0 {
        assert(d + y =~= y);
    } else {
        assert((d + y)[0] == d[0]);
        assert((d + y).drop_first() =~= d.drop_first() + y);
        lemma_digit_run_concat(d.drop_first(), y);
    }
}

proof fn lemma_int_len_of(n: Seq<char>, y: Seq<char>)
    requires
        int_shape(n),
        n != seq!['0'] ==> !starts_with_digit(y),
    ensures
        int_len(n + y) == Some(n.len()),
{
    assert((n + y)[0] == n[0]);
    if n != seq!['0'] {
        assert((n + y).drop_first() =~= n.drop_first() + y);
        lemma_digit_run_concat(n.drop_first(), y);
    }
}

proof fn lemma_frac_len_of(f: Seq<char>, y: Seq<char>)
    requires
        frac_shape(f),
        f.len() > 0 ==> !starts_with_digit(y),
        f.len() == 0 ==> !(y.len() > 0 && y[0] == '.' && starts_with_digit(y.drop_first())),
    ensures
        frac_len(f + y) == (if f.len() == 0 { None } else { Some(f.len()) }),
{
    if f.len() == 0 {
        assert(f + y =~= y);
        if y.len() > 0 && y[0] == '.' {
            assert(digit_run(y.drop_first()) == 0);
        }
    } else {
        assert((f + y)[0] == '.');
        assert((f + y).drop_first() =~= f.drop_first() + y);
        lemma_digit_run_concat(f.drop_first(), y);
    }
}

/// After `e` or `E`, `t` carries an exponent: a digit, or a sign and a
/// digit.
pub open spec fn exp_follows(t: Seq<char>) -> bool {
    starts_with_digit(t) || (t.len() > 0 && (t[0] == '-' || t[0] == '+') && starts_with_digit(t.drop_first()))
}

proof fn lemma_exp_len_of(x: Seq<char>, y: Seq<char>)
    requires
        exp_shape(x),
        x.len() > 0 ==> !starts_with_digit(y),
        x.len() == 0 ==> !(y.len() > 0 && (y[0] == 'e' || y[0] == 'E') && exp_follows(y.drop_first())),
    ensures
        exp_len(x + y) == (if x.len() == 0 { None } else { Some(x.len()) }),
{
    if x.len() == 0 {
        assert(x + y =~= y);
        if y.len() > 0 && (y[0] == 'e' || y[0] == 'E') {
            let t = y.drop_first();
            if t.len() > 0 && (t[0] == '-' || t[0] == '+') {
                assert(t.skip(1) =~= t.drop_first());
                assert(digit_run(t.skip(1)) == 0);
            } else {
                assert(t.skip(0) =~= t);
                assert(digit_run(t.skip(0)) == 0);
            }
        }
    } else {
        let u = x + y;
        assert(u[0] == x[0]);
        let t = x.drop_first();
        assert(u.drop_first() =~= t + y);
        assert((t + y)[0] == t[0]);
        if (t[0] == '-' || t[0] == '+') && t.len() >= 2 && digits_only(t.drop_first()) {
            assert((t + y).skip(1) =~= t.drop_first() + y);
            lemma_digit_run_concat(t.drop_first(), y);
        } else {
            assert(digits_only(t));
            assert(!(t[0] == '-' || t[0] == '+'));
            assert((t + y).skip(0) =~= t + y);
            lemma_digit_run_concat(t, y);
        }
    }
}

/// What follows a number ends it: no further digit, fraction or exponent
/// can be read there. A digit may follow only a lone `0`; a `.` only where
/// no fraction or exponent was read, and then without a digit after it; an
/// `e` or `E` only where no exponent was read, and then without an
/// exponent's digits after it.
pub open spec fn number_ends(n: Seq<char>, f: Seq<char>, x: Seq<char>, rest: Seq<char>) -> bool {
    &&& starts_with_digit(rest) ==> n == seq!['0'] && f.len() == 0 && x.len() == 0
    &&& rest.len() > 0 && rest[0] == '.' ==> f.len() == 0 && x.len() == 0 && !starts_with_digit(
        rest.drop_first(),
    )
    &&& rest.len() > 0 && (rest[0] == 'e' || rest[0] == 'E') ==> x.len() == 0 && !exp_follows(
        rest.drop_first(),
    )
}

/// Where the parts of a number stand in `m + (n + (f + (x + rest)))`, and
/// what the integer, fraction and exponent readers find there.
proof fn lemma_number_pieces(m: Seq<char>, n: Seq<char>, f: Seq<char>, x: Seq<char>, rest: Seq<char>)
    requires
        m == Seq::<char>::empty() || m == seq!['-'],
        int_shape(n),
        frac_shape(f),
        exp_shape(x),
        number_ends(n, f, x, rest),
    ensures
        ({
            let s = m + (n + (f + (x + rest)));
            let a = m.len();
            &&& a == (if s.len() > 0 && s[0] == '-' { 1nat } else { 0nat })
            &&& s.skip(a as int) == n + (f + (x + rest))
            &&& int_len(n + (f + (x + rest))) == Some(n.len())
            &&& s.skip((a + n.len()) as int) == f + (x + rest)
            &&& frac_len(f + (x + rest)) == (if f.len() == 0 { None } else { Some(f.len()) })
            &&& (f + (x + rest)).skip(f.len() as int) == x + rest
            &&& exp_len(x + rest) == (if x.len() == 0 { None } else { Some(x.len()) })
        }),
{
    let y3 = x + rest;
    let y2 = f + y3;
    let y1 = n + y2;
    let s = m + y1;
    let a: nat = m.len();
    assert(s.skip(a as int) =~= y1);
    if m.len() == 0 {
        assert(s[0] == y1[0]);
        assert(y1[0] == n[0]);
    } else {
        assert(s[0] == '-');
    }
    if f.len() > 0 {
        assert(y2[0] == '.');
    } else if x.len() > 0 {
        assert(y2 =~= y3);
        assert(y3[0] == x[0]);
    } else {
        assert(y2 =~= rest);
    }
    lemma_int_len_of(n, y2);
    if x.len() > 0 {
        assert(y3[0] == x[0]);
    } else {
        assert(y3 =~= rest);
    }
    if f.len() > 0 {
        assert(x.len() > 0 ==> y3[0] == x[0]);
    }
    lemma_frac_len_of(f, y3);
    lemma_exp_len_of(x, rest);
    assert(s.skip((a + n.len()) as int) =~= y2);
    assert(y2.skip(f.len() as int) =~= y3);
}

/// The length of a number, from the lengths its readers find.
proof fn lemma_number_len_of(s: Seq<char>, a: nat, b: nat, fl: nat, el: nat)
    requires
        a == (if s.len() > 0 && s[0] == '-' { 1nat } else { 0nat }),
        int_len(s.skip(a as int)) == Some(b),
        frac_len(s.skip((a + b) as int)) == (if fl == 0 { None } else { Some(fl) }),
        exp_len(s.skip((a + b) as int).skip(fl as int)) == (if el == 0 { None } else { Some(el) }),
    ensures
        number_len(s) == Some(a + b + fl + el),
{
}

/// How the joined parts of a number split again.
proof fn lemma_number_concat(m: Seq<char>, n: Seq<char>, f: Seq<char>, x: Seq<char>, rest: Seq<char>)
    ensures
        ({
            let s = m + (n + (f + (x + rest)));
            let k = (m.len() + n.len() + f.len() + x.len()) as int;
            &&& m + n + f + x + rest == s
            &&& s.skip(k) == rest
            &&& s.take(k) == m + n + f + x
        }),
{
    let s = m + (n + (f + (x + rest)));
    let k = (m.len() + n.len() + f.len() + x.len()) as int;
    assert(m + n + f + x + rest =~= s);
    assert(s.skip(k) =~= rest);
    assert(s.take(k) =~= m + n + f + x);
}

/// A JSON number is read whole: an optional `-`, an integer part, an
/// optional fraction with all its digits and an optional exponent with a
/// `-`, a `+` or no sign and all its digits are read exactly, leaving what
/// follows, wherever what follows ends the number.
pub proof fn lemma_number_grammar(
    m: Seq<char>,
    n: Seq<char>,
    f: Seq<char>,
    x: Seq<char>,
    rest: Seq<char>,
)
    requires
        m == Seq::<char>::empty() || m == seq!['-'],
        int_shape(n),
        frac_shape(f),
        exp_shape(x),
        number_ends(n, f, x, rest),
    ensures
        number_spec(m + n + f + x + rest) == Some((rest, m + n + f + x)),
{
    lemma_number_pieces(m, n, f, x, rest);
    lemma_number_len_of(m + (n + (f + (x + rest))), m.len(), n.len(), f.len(), x.len());
    lemma_number_concat(m, n, f, x, rest);
}

// ------------------------------------------------------------ unicode escapes

/// A hexadecimal digit in either case: `0` to `9`, `a` to `f`, `A` to `F`.
pub open spec fn hex_digit_char(c: char) -> bool {
    ('0' <= c && c <= '9') || ('a' <= c && c <= 'f') || ('A' <= c && c <= 'F')
}

/// The value of a hexadecimal digit, from its code: `0` is 0x30, `A` is
/// 0x41 and `a` is 0x61.
pub open spec fn hex_digit_value(c: char) -> int {
    if c as u32 <= 0x39 {
        c as u32 - 0x30
    } else if c as u32 <= 0x46 {
        c as u32 - 0x37
    } else {
        c as u32 - 0x57
    }
}

/// A `\u` escape with four hexadecimal digits, in either case, is read as the
/// one character whose code weighs the digits by 19, 18, 17 and 16 (the
/// weights `16 ^ 3` to `16 ^ 0`, with `^` exclusive or); the string ends at
/// the quote after it and leaves what follows.
pub proof fn lemma_unicode_escape(h: Seq<char>, r: Seq<char>)
    requires
        h.len() == 4,
        forall|k: int| 0 <= k < 4 ==> hex_digit_char(#[trigger] h[k]),
    ensures
        string_spec(seq!['"', '\\', 'u'] + h + seq!['"'] + r) == Some((
            r,
            seq![(19 * hex_digit_value(h[0]) + 18 * hex_digit_value(h[1]) + 17 * hex_digit_value(h[2])
                + 16 * hex_digit_value(h[3])) as u32 as char],
        )),
{
    let s = seq!['"', '\\', 'u'] + h + seq!['"'] + r;
    let body = s.drop_first();
    let tail = seq!['"'] + r;
    let hd = h + tail;
    assert(body =~= seq!['\\', 'u'] + hd);
    assert(body.skip(2) =~= hd);
    assert forall|k: int| 0 <= k < 4 implies is_hex(#[trigger] hd[k]) && hex_val(hd[k]) == hex_digit_value(hd[k]) by {
        assert(hd[k] == h[k]);
        assert(hex_digit_char(h[k]));
    }
    assert(hd.skip(4) =~= tail);
    let code = (19 * hex_digit_value(h[0]) + 18 * hex_digit_value(h[1]) + 17 * hex_digit_value(h[2])
        + 16 * hex_digit_value(h[3])) as u32;
    assert(hd[0] == h[0] && hd[1] == h[1] && hd[2] == h[2] && hd[3] == h[3]);
    assert(unicode_code(hd) == code);
    assert(unicode_spec(hd) == Some((tail, code as char)));
    assert(!unescaped_char(body[0]));
    assert(string_char_fn()(body) == Some((tail, code as char)));
    assert(!unescaped_char(tail[0]));
    assert(string_char_fn()(tail) is None);
    assert(iterate(string_char_fn(), tail) == (tail, Seq::<char>::empty()));
    assert(seq![code as char] + Seq::<char>::empty() =~= seq![code as char]);
    assert(iterate(string_char_fn(), body) == (tail, seq![code as char]));
    assert(tail.drop_first() =~= r);
}

/// The character that the escape `\c` stands for, for the eight one-letter
/// escapes of JSON.
pub open spec fn simple_escape(c: char) -> Option<char> {
    if c == '"' || c == '\\' || c == '/' {
        Some(c)
    } else if c == 'b' {
        Some(8u8 as char)
    } else if c == 'f' {
        Some(12u8 as char)
    } else if c == 'n' {
        Some(10u8 as char)
    } else if c == 'r' {
        Some(13u8 as char)
    } else if c == 't' {
        Some(9u8 as char)
    } else {
        None
    }
}

/// A one-letter escape is read as the character it stands for, and the
/// string ends at the quote after it; a backslash before any other
/// character than these and `u` makes the string fail.
pub proof fn lemma_simple_escape(c: char, r: Seq<char>)
    ensures
        simple_escape(c) matches Some(v) ==> string_spec(seq!['"', '\\', c, '"'] + r) == Some((r, seq![v])),
        simple_escape(c) is None && c != 'u' ==> string_spec(seq!['"', '\\', c, '"'] + r) is None,
{
    let s = seq!['"', '\\', c, '"'] + r;
    let body = s.drop_first();
    let tail = seq!['"'] + r;
    assert(body =~= seq!['\\', c] + tail);
    assert(body.skip(2) =~= tail);
    assert(!unescaped_char(body[0]));
    assert(!unescaped_char(tail[0]));
    assert(string_char_fn()(tail) is None);
    assert(iterate(string_char_fn(), tail) == (tail, Seq::<char>::empty()));
    assert(tail.drop_first() =~= r);
    if let Some(v) = simple_escape(c) {
        assert(string_char_fn()(body) == Some((tail, v)));
        assert(seq![v] + Seq::<char>::empty() =~= seq![v]);
        assert(iterate(string_char_fn(), body) == (tail, seq![v]));
    } else if c != 'u' {
        assert(string_char_fn()(body) is None);
        assert(iterate(string_char_fn(), body) == (body, Seq::<char>::empty()));
        assert(body[0] != '"');
    }
}

} // verus!
