use pyo3_test::demo::foo;
use pyo3_test::parser::ParseErr;

fn chars(s: &str) -> Vec<char> {
    s.chars().collect()
}

#[test]
fn foo_fails_on_the_readme_input() {
    let v = chars("+++ab['e']fffgrhfxyxzxyzyzxyxyzxz yzy");
    let r = foo(&v[..]);
    match r {
        Err(e) => {
            assert!(matches!(e, ParseErr::Expected('c')));
            assert_eq!(e.to_string(), "Expected to see char: c");
        },
        Ok(_) => panic!("foo succeeded"),
    }
}

#[test]
fn foo_stops_where_a_y_must_follow_the_z() {
    let v = chars("ab['e']fgxzxyzyzxyxyzz");
    assert!(matches!(foo(&v[..]), Err(ParseErr::Expected('y'))));
    let v = chars("cd['e']ffgrgrhfxyxzzxyzyzxzxyxxyyzxxxzyz");
    assert!(matches!(foo(&v[..]), Err(ParseErr::Expected('y'))));
}

#[test]
fn foo_reports_where_it_stops_early() {
    assert!(matches!(foo(&chars("ab['e']")[..]), Err(ParseErr::EOF())));
    assert!(matches!(foo(&chars("ab['x']")[..]), Err(ParseErr::Expected('e'))));
    assert!(matches!(foo(&chars("ab['e']fgxyq")[..]), Err(ParseErr::Expected('x'))));
    match foo(&chars("ab['e']fgxq")[..]) {
        Err(ParseErr::Unexpected(m)) => assert_eq!(m, "Unexpected input: 'q'"),
        _ => panic!("foo accepted a q"),
    }
    match foo(&chars("ab['e']fgxzxyzyzxyx")[..]) {
        Err(ParseErr::Unexpected(m)) => assert_eq!(m, "Unexpected: ()"),
        _ => panic!("foo accepted the end of the input"),
    }
    assert!(matches!(foo(&chars("ab['e']fgxzxyzyzxyxyzxq")[..]), Err(ParseErr::Expected('x'))));
    assert!(matches!(foo(&chars("ab['e']fgxzzyzx")[..]), Err(ParseErr::Expected('z'))));
}

#[test]
fn foo_reads_str_input_too() {
    assert!(matches!(foo("+++ab['e']fffgrhfxyxzxyzyzxyxyzxz yzy"), Err(ParseErr::Expected('c'))));
    assert!(matches!(foo("ab['e']fgxzxyzyzxyxyzz"), Err(ParseErr::Expected('y'))));
}
