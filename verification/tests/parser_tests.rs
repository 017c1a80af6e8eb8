use pyo3_test::chars::{char, eof, string};
use pyo3_test::combinators::{id, lift, lift_a_2, pure, satisfy, unexpected};
use pyo3_test::parser::{any_char, ParseErr, ParseResult, Parser};

fn chars(s: &str) -> Vec<char> {
    s.chars().collect()
}

#[test]
fn any_char_reads_one_character() {
    let v = chars("xy");
    let (rest, c) = any_char().parse(&v[..]).ok().unwrap();
    assert_eq!(c, 'x');
    assert_eq!(rest, &chars("y")[..]);
    let e: Vec<char> = Vec::new();
    assert!(matches!(any_char().parse(&e[..]), Err(ParseErr::EOF())));
}

#[test]
fn char_reads_only_its_character() {
    let v = chars("ab");
    let (rest, c) = char('a').parse(&v[..]).ok().unwrap();
    assert_eq!(c, 'a');
    assert_eq!(rest, &chars("b")[..]);
    assert!(matches!(char('a').parse(&chars("b")[..]), Err(ParseErr::Expected('a'))));
    assert!(matches!(char('a').parse(&chars("")[..]), Err(ParseErr::EOF())));
}

#[test]
fn string_reads_its_literal() {
    let v = chars("nullx");
    let (rest, s) = string("null".to_string()).parse(&v[..]).ok().unwrap();
    assert_eq!(s, "null");
    assert_eq!(rest, &chars("x")[..]);
    assert!(matches!(string("null".to_string()).parse(&chars("nul")[..]), Err(ParseErr::EOF())));
    assert!(matches!(string("null".to_string()).parse(&chars("nope")[..]), Err(ParseErr::Expected('u'))));
    let (rest, s) = string(String::new()).parse(&v[..]).ok().unwrap();
    assert_eq!(s, "");
    assert_eq!(rest, &v[..]);
}

#[test]
fn eof_succeeds_only_at_the_end() {
    let empty = chars("");
    assert!(eof::<&[char]>().parse(&empty[..]).is_ok());
    match eof::<&[char]>().parse(&chars("a")[..]) {
        Err(ParseErr::Unexpected(m)) => assert_eq!(m, "Expected EOF, got 'a'"),
        _ => panic!("eof accepted input"),
    }
}

#[test]
fn satisfy_tests_the_value() {
    let v = chars("1x");
    let p = satisfy(any_char(), |c: &char| c.is_ascii_digit());
    let (rest, c) = p.parse(&v[..]).ok().unwrap();
    assert_eq!(c, '1');
    assert_eq!(rest, &chars("x")[..]);
    match p.parse(&chars("x1")[..]) {
        Err(ParseErr::Unexpected(m)) => assert_eq!(m, "Unexpected input: 'x'"),
        _ => panic!("satisfy accepted a letter"),
    }
    assert!(matches!(p.parse(&chars("")[..]), Err(ParseErr::EOF())));
}

#[test]
fn or_tries_the_second_on_the_same_input() {
    let p = char('a').or(char('b'));
    let v = chars("bc");
    let (rest, c) = p.parse(&v[..]).ok().unwrap();
    assert_eq!(c, 'b');
    assert_eq!(rest, &chars("c")[..]);
    assert!(matches!(p.parse(&chars("c")[..]), Err(ParseErr::Expected('b'))));
    let input = chars("ab");
    let (_, c) = p.parse(&input[..]).ok().unwrap();
    assert_eq!(c, 'a');
}

#[test]
fn and_seq_and_map_sequence_parsers() {
    let v = chars("abc");
    let (rest, t) = char('a').and(char('b')).parse(&v[..]).ok().unwrap();
    assert_eq!(t, ('a', 'b'));
    assert_eq!(rest, &chars("c")[..]);
    let (_, c) = char('a').seq(char('b')).parse(&v[..]).ok().unwrap();
    assert_eq!(c, 'b');
    let (_, n) = char('a').map(|c: char| c as u32).parse(&v[..]).ok().unwrap();
    assert_eq!(n, 97);
    assert!(matches!(char('a').and(char('c')).parse(&v[..]), Err(ParseErr::Expected('c'))));
    assert!(matches!(char('b').seq(char('b')).parse(&v[..]), Err(ParseErr::Expected('b'))));
}

#[test]
fn and_then_chooses_the_next_parser() {
    let p = any_char().and_then(|c: char| char(c));
    let input = chars("zzy");
    let (rest, c) = p.parse(&input[..]).ok().unwrap();
    assert_eq!(c, 'z');
    assert_eq!(rest, &chars("y")[..]);
    assert!(matches!(p.parse(&chars("zy")[..]), Err(ParseErr::Expected('z'))));
}

#[test]
fn ap_and_lift_a_2_combine_values() {
    let v = chars("ab");
    let p = char('a').map(|a: char| move |b: char| format!("{} {}", a, b)).ap(char('b'));
    let (rest, s) = p.parse(&v[..]).ok().unwrap();
    assert_eq!(s, "a b");
    assert!(rest.is_empty());
    let q = lift_a_2(|a: char, b: char| (b, a), char('a'), char('b'));
    let (_, t) = q.parse(&v[..]).ok().unwrap();
    assert_eq!(t, ('b', 'a'));
    assert!(matches!(q.parse(&chars("aa")[..]), Err(ParseErr::Expected('b'))));
}

#[test]
fn many_and_some_repeat_while_they_can() {
    let v = chars("aab");
    let (rest, l) = char('a').many().parse(&v[..]).ok().unwrap();
    assert_eq!(l, vec!['a', 'a']);
    assert_eq!(rest, &chars("b")[..]);
    let (rest, l) = char('x').many().parse(&v[..]).ok().unwrap();
    assert!(l.is_empty());
    assert_eq!(rest, &v[..]);
    let (_, l) = char('a').some().parse(&v[..]).ok().unwrap();
    assert_eq!(l.len(), 2);
    assert!(matches!(char('x').some().parse(&v[..]), Err(ParseErr::Expected('x'))));
}

#[test]
fn skip_many_and_skip_some_forget_values() {
    let v = chars("  x");
    let (rest, _) = char(' ').skip_many().parse(&v[..]).ok().unwrap();
    assert_eq!(rest, &chars("x")[..]);
    let (rest, _) = char(' ').skip_some().parse(&v[..]).ok().unwrap();
    assert_eq!(rest, &chars("x")[..]);
    assert!(matches!(char(' ').skip_some().parse(&chars("x")[..]), Err(ParseErr::Expected(' '))));
}

#[test]
fn sep_by_reads_separated_values() {
    let p = char('x').sep_by(char(','));
    let input = chars("x,x,xy");
    let (rest, l) = p.parse(&input[..]).ok().unwrap();
    assert_eq!(l, vec!['x', 'x', 'x']);
    assert_eq!(rest, &chars("y")[..]);
    let input = chars("y");
    let (rest, l) = p.parse(&input[..]).ok().unwrap();
    assert!(l.is_empty());
    assert_eq!(rest, &chars("y")[..]);
    assert!(matches!(p.parse(&chars("x,y")[..]), Err(ParseErr::Expected('x'))));
    let q = char('x').sep_by_1(char(','));
    assert!(matches!(q.parse(&chars("y")[..]), Err(ParseErr::Expected('x'))));
    let input = chars("x,x");
    let (_, l) = q.parse(&input[..]).ok().unwrap();
    assert_eq!(l.len(), 2);
}

#[test]
fn end_by_needs_a_separator_after_each_value() {
    let p = char('x').end_by(char(';'));
    let input = chars("x;x;y");
    let (rest, l) = p.parse(&input[..]).ok().unwrap();
    assert_eq!(l.len(), 2);
    assert_eq!(rest, &chars("y")[..]);
    assert!(matches!(p.parse(&chars("x;x")[..]), Err(ParseErr::EOF())));
    let q = char('x').end_by_1(char(';'));
    assert!(matches!(q.parse(&chars("y")[..]), Err(ParseErr::Expected('x'))));
    let input = chars("x;");
    let (_, l) = q.parse(&input[..]).ok().unwrap();
    assert_eq!(l.len(), 1);
}

#[test]
fn sep_end_by_takes_an_optional_last_separator() {
    let p = char('x').sep_end_by(char(';'));
    let input = chars("x;x;y");
    let (rest, l) = p.parse(&input[..]).ok().unwrap();
    assert_eq!(l.len(), 2);
    assert_eq!(rest, &chars("y")[..]);
    let input = chars("x;xy");
    let (rest, l) = p.parse(&input[..]).ok().unwrap();
    assert_eq!(l.len(), 2);
    assert_eq!(rest, &chars("y")[..]);
    let input = chars("y");
    let (rest, l) = p.parse(&input[..]).ok().unwrap();
    assert!(l.is_empty());
    assert_eq!(rest, &chars("y")[..]);
    let q = char('x').sep_end_by_1(char(';'));
    assert!(matches!(q.parse(&chars("y")[..]), Err(ParseErr::Expected('x'))));
    let input = chars("x;");
    let (rest, l) = q.parse(&input[..]).ok().unwrap();
    assert_eq!(l.len(), 1);
    assert!(rest.is_empty());
}

#[test]
fn count_reads_exactly_n_times() {
    let p = char('a').count(2);
    let input = chars("aaa");
    let (rest, l) = p.parse(&input[..]).ok().unwrap();
    assert_eq!(l.len(), 2);
    assert_eq!(rest, &chars("a")[..]);
    assert!(matches!(p.parse(&chars("ab")[..]), Err(ParseErr::Expected('a'))));
    let input = chars("b");
    let (rest, l) = char('a').count(0).parse(&input[..]).ok().unwrap();
    assert!(l.is_empty());
    assert_eq!(rest, &chars("b")[..]);
}

#[test]
fn many_till_stops_before_the_end_marker() {
    let p = char('a').many_till(char('b'));
    let input = chars("aabc");
    let (rest, l) = p.parse(&input[..]).ok().unwrap();
    assert_eq!(l.len(), 2);
    assert_eq!(rest, &chars("bc")[..]);
    assert!(matches!(p.parse(&chars("aac")[..]), Err(ParseErr::Expected('a'))));
    assert!(matches!(p.parse(&chars("aa")[..]), Err(ParseErr::EOF())));
}

#[test]
fn not_followed_by_looks_without_reading() {
    let p = char('a').not_followed_by(char('b'));
    let input = chars("ac");
    let (rest, _) = p.parse(&input[..]).ok().unwrap();
    assert_eq!(rest, &chars("c")[..]);
    match p.parse(&chars("ab")[..]) {
        Err(ParseErr::Unexpected(m)) => assert_eq!(m, "Unexpected: 'b'"),
        _ => panic!("not_followed_by accepted what followed"),
    }
}

#[test]
fn optional_and_skip_optional_never_fail() {
    let v = chars("b");
    let (rest, o) = char('a').optional().parse(&v[..]).ok().unwrap();
    assert_eq!(o, None);
    assert_eq!(rest, &v[..]);
    let (rest, o) = char('b').optional().parse(&v[..]).ok().unwrap();
    assert_eq!(o, Some('b'));
    assert!(rest.is_empty());
    let (rest, _) = char('a').skip_optional().parse(&v[..]).ok().unwrap();
    assert_eq!(rest, &v[..]);
}

#[test]
fn surround_and_bracket_keep_the_middle() {
    let input = chars("['e']!");
    let (rest, c) = char('e').surround(char('\'')).bracket(char('['), char(']')).parse(&input[..]).ok().unwrap();
    assert_eq!(c, 'e');
    assert_eq!(rest, &chars("!")[..]);
    assert!(matches!(char('e').surround(char('\'')).parse(&chars("'e")[..]), Err(ParseErr::EOF())));
}

fn drop_one(i: &[char]) -> ParseResult<&[char], usize> {
    Ok((&i[1..], i.len()))
}

#[test]
fn pure_lift_unexpected_and_void() {
    let v = chars("ab");
    let (rest, n) = pure(|| 5u8).parse(&v[..]).ok().unwrap();
    assert_eq!(n, 5);
    assert_eq!(rest, &v[..]);
    let l = lift(drop_one);
    let (rest, n) = l.parse(&v[..]).ok().unwrap();
    assert_eq!(n, 2);
    assert_eq!(rest, &chars("b")[..]);
    match unexpected::<&[char], char>("nope".to_string()).parse(&v[..]) {
        Err(ParseErr::Unexpected(m)) => assert_eq!(m, "nope"),
        _ => panic!("unexpected succeeded"),
    }
    let (rest, ()) = char('a').void().parse(&v[..]).ok().unwrap();
    assert_eq!(rest, &chars("b")[..]);
    assert_eq!(id(3), 3);
}

#[test]
fn parse_err_to_string() {
    assert_eq!(ParseErr::EOF().to_string(), "End Of File");
    assert_eq!(ParseErr::Unexpected("x".to_string()).to_string(), "Unexpected: x");
    assert_eq!(ParseErr::Expected('c').to_string(), "Expected to see char: c");
}

#[test]
fn exception_messages() {
    assert_eq!(ParseErr::EOF().exception_message(), "EOF");
    assert_eq!(ParseErr::Unexpected("x".to_string()).exception_message(), "Unexpected: x");
    assert_eq!(ParseErr::Expected('c').exception_message(), "Expected: 'c'");
}

#[test]
fn and_then_into_pure_reads_as_the_first_parser() {
    let v = chars("aab");
    let p = char('a').skip_some().and_then(|u: ()| pure(move || u));
    let (rest, ()) = p.parse(&v[..]).ok().unwrap();
    assert_eq!(rest, &chars("b")[..]);
    assert!(matches!(p.parse(&chars("b")[..]), Err(ParseErr::Expected('a'))));
}

#[test]
fn what_is_left_is_a_suffix_of_the_input() {
    let v = chars("x;x;x!");
    let (rest, _) = char('x').sep_end_by(char(';')).parse(&v[..]).ok().unwrap();
    assert_eq!(rest, &v[5..]);
    let (rest, _) = char('x').and(char(';')).many().parse(&v[..]).ok().unwrap();
    assert_eq!(rest, &v[4..]);
    let (rest, _) = char('x').end_by(char(';')).optional().parse(&v[..]).ok().unwrap();
    assert_eq!(rest, &v[..]);
}

#[test]
fn error_messages_name_what_was_found() {
    let p = any_char().satisfy(|c: &char| *c == 'z');
    match p.parse("q") {
        Err(ParseErr::Unexpected(m)) => assert_eq!(m, "Unexpected input: 'q'"),
        _ => panic!("satisfy accepted q"),
    }
    assert!(matches!(p.parse("zq"), Ok(("q", 'z'))));
    let n = char('y').seq(char('x')).not_followed_by(eof::<&str>());
    match n.parse("yx") {
        Err(ParseErr::Unexpected(m)) => assert_eq!(m, "Unexpected: ()"),
        _ => panic!("not_followed_by accepted the end"),
    }
    assert!(matches!(n.parse("yxa"), Ok(("a", 'x'))));
    match eof::<&str>().parse("a") {
        Err(ParseErr::Unexpected(m)) => assert_eq!(m, "Expected EOF, got 'a'"),
        _ => panic!("eof accepted input"),
    }
    assert!(matches!(eof::<&str>().parse(""), Ok(("", ()))));
}
