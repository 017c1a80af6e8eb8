use pyo3_test::json::{
    begin_array, begin_object, end_array, end_object, jarray, jbool, jnull, jnumber, jobject,
    jstring, json, name_separator, quotation_mark, value_separator, ws, Json,
};
use pyo3_test::parser::ParseErr;

fn chars(s: &str) -> Vec<char> {
    s.chars().collect()
}

#[test]
fn ws_skips_leading_whitespace() {
    let v = chars(" \t\r\n x ");
    let (rest, ()) = ws(&v[..]).ok().unwrap();
    assert_eq!(rest, &chars("x ")[..]);
    let e = chars("");
    let (rest, ()) = ws(&e[..]).ok().unwrap();
    assert!(rest.is_empty());
}

#[test]
fn structural_marks_skip_whitespace_around_them() {
    let v = chars("  [ \n1");
    let (rest, ()) = begin_array(&v[..]).ok().unwrap();
    assert_eq!(rest, &chars("1")[..]);
    assert!(matches!(begin_array(&chars(" x")[..]), Err(ParseErr::Expected('['))));
    assert!(matches!(begin_array(&chars("  ")[..]), Err(ParseErr::EOF())));
    assert!(end_array(&chars(" ] ")[..]).ok().unwrap().0.is_empty());
    assert!(begin_object(&chars("{")[..]).is_ok());
    assert!(end_object(&chars("}")[..]).is_ok());
    assert!(name_separator(&chars(" : ")[..]).is_ok());
    assert!(value_separator(&chars(",")[..]).is_ok());
    assert!(matches!(value_separator(&chars(";")[..]), Err(ParseErr::Expected(','))));
    assert!(quotation_mark(&chars("\"")[..]).is_ok());
    assert!(matches!(quotation_mark(&chars(" \"")[..]), Err(ParseErr::Expected('"'))));
}

#[test]
fn jnull_reads_null() {
    let input = chars("null,");
    let (rest, ()) = jnull(&input[..]).ok().unwrap();
    assert_eq!(rest, &chars(",")[..]);
    assert!(matches!(jnull(&chars("nul")[..]), Err(ParseErr::EOF())));
    assert!(matches!(jnull(&chars("nil")[..]), Err(ParseErr::Expected('u'))));
}

#[test]
fn jbool_reads_true_or_false() {
    let input = chars("true]");
    let (rest, b) = jbool(&input[..]).ok().unwrap();
    assert!(b);
    assert_eq!(rest, &chars("]")[..]);
    let input = chars("false");
    let (_, b) = jbool(&input[..]).ok().unwrap();
    assert!(!b);
    assert!(matches!(jbool(&chars("fals")[..]), Err(ParseErr::EOF())));
    assert!(matches!(jbool(&chars("xyz")[..]), Err(ParseErr::Expected('f'))));
}

#[test]
fn jstring_reads_escapes() {
    let input = chars("\"a\\nb\\\"c\\/\\\\\" x");
    let (rest, s) = jstring(&input[..]).ok().unwrap();
    assert_eq!(s, "a\nb\"c/\\");
    assert_eq!(rest, &chars(" x")[..]);
    let input = chars("\"\\b\\f\\r\\t\"");
    let (_, s) = jstring(&input[..]).ok().unwrap();
    assert_eq!(s, "\u{8}\u{c}\r\t");
    let input = chars("\"\"");
    let (_, s) = jstring(&input[..]).ok().unwrap();
    assert_eq!(s, "");
    assert!(jstring(&chars("\"abc")[..]).is_err());
    assert!(jstring(&chars("abc\"")[..]).is_err());
    assert!(jstring(&chars("\"\\q\"")[..]).is_err());
}

#[test]
fn jstring_unicode_escape_weights_digits_by_xor() {
    // The four digits are weighted 16 ^ 3, 16 ^ 2, 16 ^ 1 and 16 ^ 0, where
    // ^ is exclusive or: 19, 18, 17 and 16. So 0041 is 4 * 17 + 1 * 16 = 84.
    let input = chars("\"\\u0041\"");
    let (_, s) = jstring(&input[..]).ok().unwrap();
    assert_eq!(s, "T");
    let input = chars("\"\\u1000\"");
    let (_, s) = jstring(&input[..]).ok().unwrap();
    assert_eq!(s, "\u{13}");
    let input = chars("\"\\uffff\"");
    let (_, s) = jstring(&input[..]).ok().unwrap();
    assert_eq!(s, char::from_u32(15 * 70).unwrap().to_string());
    assert!(jstring(&chars("\"\\u12g4\"")[..]).is_err());
}

#[test]
fn jnumber_reads_the_text_of_a_number() {
    let input = chars("-12.5e+3,");
    let (rest, n) = jnumber(&input[..]).ok().unwrap();
    assert_eq!(n, "-12.5e+3");
    assert_eq!(rest, &chars(",")[..]);
    let input = chars("0123");
    let (rest, n) = jnumber(&input[..]).ok().unwrap();
    assert_eq!(n, "0");
    assert_eq!(rest, &chars("123")[..]);
    let input = chars("1.");
    let (rest, n) = jnumber(&input[..]).ok().unwrap();
    assert_eq!(n, "1");
    assert_eq!(rest, &chars(".")[..]);
    let input = chars("7E5x");
    let (rest, n) = jnumber(&input[..]).ok().unwrap();
    assert_eq!(n, "7E5");
    assert_eq!(rest, &chars("x")[..]);
    let input = chars("3e");
    let (rest, n) = jnumber(&input[..]).ok().unwrap();
    assert_eq!(n, "3");
    assert_eq!(rest, &chars("e")[..]);
    assert!(jnumber(&chars("abc")[..]).is_err());
    assert!(jnumber(&chars("-")[..]).is_err());
}

#[test]
fn jarray_reads_values_between_brackets() {
    let input = chars(" [1, true , null,\"a\"] x");
    let (rest, vs) = jarray(&input[..]).ok().unwrap();
    assert_eq!(vs.len(), 4);
    assert!(matches!(&vs[0], Json::JNumber { value } if value == "1"));
    assert!(matches!(&vs[1], Json::JBool { value: true }));
    assert!(matches!(&vs[2], Json::JNull { .. }));
    assert!(matches!(&vs[3], Json::JString { value } if value == "a"));
    assert_eq!(rest, &chars("x")[..]);
    let input = chars("[]");
    let (_, vs) = jarray(&input[..]).ok().unwrap();
    assert!(vs.is_empty());
    assert!(jarray(&chars("[1,]")[..]).is_err());
    assert!(jarray(&chars("[1")[..]).is_err());
}

#[test]
fn jobject_keeps_each_key_once_with_its_last_value() {
    let input = chars("{\"a\": 1, \"b\": [], \"a\": 2}");
    let (rest, ms) = jobject(&input[..]).ok().unwrap();
    assert!(rest.is_empty());
    assert_eq!(ms.len(), 2);
    assert_eq!(ms[0].0, "a");
    assert!(matches!(&ms[0].1, Json::JNumber { value } if value == "2"));
    assert_eq!(ms[1].0, "b");
    assert!(matches!(&ms[1].1, Json::JArray { value } if value.is_empty()));
    let input = chars("{ }");
    let (_, ms) = jobject(&input[..]).ok().unwrap();
    assert!(ms.is_empty());
    assert!(jobject(&chars("{\"a\" 1}")[..]).is_err());
    assert!(jobject(&chars("{1: 2}")[..]).is_err());
}

#[test]
fn json_reads_nested_values() {
    let input = chars("{\"k\": [false, {\"x\": -0.5}]}");
    let (rest, j) = json(&input[..]).ok().unwrap();
    assert!(rest.is_empty());
    match j {
        Json::JObject { value } => {
            assert_eq!(value.len(), 1);
            assert_eq!(value[0].0, "k");
            match &value[0].1 {
                Json::JArray { value } => {
                    assert_eq!(value.len(), 2);
                    assert!(matches!(&value[0], Json::JBool { value: false }));
                    match &value[1] {
                        Json::JObject { value } => {
                            assert_eq!(value[0].0, "x");
                            assert!(matches!(&value[0].1, Json::JNumber { value } if value == "-0.5"));
                        },
                        _ => panic!("not an object"),
                    }
                },
                _ => panic!("not an array"),
            }
        },
        _ => panic!("not an object"),
    }
    assert!(json(&chars("")[..]).is_err());
    assert!(json(&chars("nul")[..]).is_err());
    let input = chars("truex");
    let (rest, j) = json(&input[..]).ok().unwrap();
    assert!(matches!(j, Json::JBool { value: true }));
    assert_eq!(rest, &chars("x")[..]);
}

#[test]
fn leading_whitespace_before_arrays_and_objects_is_ignored() {
    let a = chars("[1,2] x");
    let b = chars(" \n\t[1,2] x");
    let (ra, va) = jarray(&a[..]).ok().unwrap();
    let (rb, vb) = jarray(&b[..]).ok().unwrap();
    assert_eq!(ra, rb);
    assert_eq!(va.len(), vb.len());
    let c = chars("  {\"k\":null}");
    let (rc, mc) = jobject(&c[..]).ok().unwrap();
    assert!(rc.is_empty());
    assert_eq!(mc.len(), 1);
}

#[test]
fn parsers_read_str_input_too() {
    let (rest, s) = jstring("\"héllo\" rest").ok().unwrap();
    assert_eq!(s, "héllo");
    assert_eq!(rest, " rest");
    let (rest, j) = json("[1, \"ü\"]tail").ok().unwrap();
    assert!(matches!(j, Json::JArray { ref value } if value.len() == 2));
    assert_eq!(rest, "tail");
    assert!(matches!(jnull("nul"), Err(ParseErr::EOF())));
    let (rest, ()) = ws("  é").ok().unwrap();
    assert_eq!(rest, "é");
}

#[test]
fn jstring_errors_come_from_the_quotes() {
    assert!(matches!(jstring("abc"), Err(ParseErr::Expected('"'))));
    assert!(matches!(jstring(""), Err(ParseErr::EOF())));
    assert!(matches!(jstring("\"abc"), Err(ParseErr::EOF())));
    assert!(matches!(jstring("\"a\\qb\""), Err(ParseErr::Expected('"'))));
}

#[test]
fn jnumber_errors_come_from_the_first_digit() {
    match jnumber("abc") {
        Err(ParseErr::Unexpected(m)) => assert_eq!(m, "Unexpected input: 'a'"),
        _ => panic!("jnumber read a letter"),
    }
    match jnumber("-x") {
        Err(ParseErr::Unexpected(m)) => assert_eq!(m, "Unexpected input: 'x'"),
        _ => panic!("jnumber read a letter"),
    }
    assert!(matches!(jnumber("-"), Err(ParseErr::EOF())));
    assert!(matches!(jnumber(""), Err(ParseErr::EOF())));
}

#[test]
fn array_object_and_value_errors() {
    assert!(matches!(jarray("x"), Err(ParseErr::Expected('['))));
    assert!(matches!(jarray("[1"), Err(ParseErr::EOF())));
    assert!(matches!(jarray("[1,]"), Err(ParseErr::Expected('{'))));
    assert!(matches!(jobject("{1: 2}"), Err(ParseErr::Expected('}'))));
    assert!(matches!(jobject("{\"a\" 1}"), Err(ParseErr::Expected('}'))));
    assert!(matches!(jobject("{\"a\": 1, \"b\" 2}"), Err(ParseErr::Expected(':'))));
    assert!(matches!(jobject("{\"a\": 1, 2}"), Err(ParseErr::Expected('"'))));
    assert!(matches!(json(""), Err(ParseErr::EOF())));
    assert!(matches!(json("nul"), Err(ParseErr::Expected('{'))));
    assert!(matches!(json("{\"a\": [1, }"), Err(ParseErr::Expected('}'))));
}

#[test]
fn nested_objects_keep_each_key_once() {
    let input = chars("[{\"k\": {\"x\": 1, \"x\": 2, \"y\": 3}, \"k\": {\"z\": 4, \"z\": 5}}]");
    let (rest, j) = json(&input[..]).ok().unwrap();
    assert!(rest.is_empty());
    let outer = match j {
        Json::JArray { value } => value,
        _ => panic!("not an array"),
    };
    assert_eq!(outer.len(), 1);
    let ms = match &outer[0] {
        Json::JObject { value } => value,
        _ => panic!("not an object"),
    };
    assert_eq!(ms.len(), 1);
    assert_eq!(ms[0].0, "k");
    match &ms[0].1 {
        Json::JObject { value } => {
            assert_eq!(value.len(), 1);
            assert_eq!(value[0].0, "z");
            assert!(matches!(&value[0].1, Json::JNumber { value } if value == "5"));
        }
        _ => panic!("not an object"),
    }
}

#[test]
fn jnumber_rejects_a_leading_plus_naming_it() {
    match jnumber("+1") {
        Err(ParseErr::Unexpected(m)) => assert_eq!(m, "Unexpected input: '+'"),
        _ => panic!("a leading plus was accepted"),
    }
    match jnumber("-'") {
        Err(ParseErr::Unexpected(m)) => assert_eq!(m, "Unexpected input: '\\''"),
        _ => panic!("a quote was accepted"),
    }
    match jnumber("\\") {
        Err(ParseErr::Unexpected(m)) => assert_eq!(m, "Unexpected input: '\\\\'"),
        _ => panic!("a backslash was accepted"),
    }
    assert!(matches!(jnumber("-"), Err(ParseErr::EOF())));
}

#[test]
fn a_quoted_plain_string_reads_back() {
    let (rest, t) = jstring("\"hello, world\" and more").ok().unwrap();
    assert_eq!(t, "hello, world");
    assert_eq!(rest, " and more");
    let (rest, t) = jstring("\"\"").ok().unwrap();
    assert_eq!(t, "");
    assert_eq!(rest, "");
}

#[test]
fn json_fails_as_an_object_would() {
    for s in ["", "?", "{", "{\"a\" 1}", "{\"a\": }", "[1, x]"] {
        let je = match json(s) {
            Err(e) => e,
            Ok(_) => panic!("json accepted {}", s),
        };
        let oe = match jobject(s) {
            Err(e) => e,
            Ok(_) => panic!("jobject accepted {}", s),
        };
        assert_eq!(format!("{:?}", je), format!("{:?}", oe));
    }
}

#[test]
fn a_double_quote_is_named_as_it_is() {
    match jnumber("\"") {
        Err(ParseErr::Unexpected(m)) => assert_eq!(m, "Unexpected input: '\"'"),
        _ => panic!("a double quote was accepted"),
    }
}
