use pyo3_test::foo::{class_method_message, fold_list, sum_as_string, Bar};
use pyo3_test::strings::{chars_to_string, usize_to_decimal};

#[test]
fn sum_as_string_adds() {
    assert_eq!(sum_as_string(2, 40), "42");
    assert_eq!(sum_as_string(0, 0), "0");
    assert_eq!(sum_as_string(999, 1), "1000");
}

#[test]
fn bar_combo_length_counts_bytes() {
    let b = Bar::new("ab".to_string(), "é".to_string(), 7u8);
    assert_eq!(b.combo_length(), 4);
    assert_eq!(b.other, 7u8);
}

#[test]
fn bar_static_demo() {
    assert_eq!(Bar::<u8>::static_demo(), "Successfully called a static method");
}

#[test]
fn fold_list_adds_until_the_first_error() {
    let ok: Vec<Result<i32, String>> = vec![Ok(1), Ok(2), Ok(-10)];
    assert_eq!(fold_list(ok), Ok(-7));
    let empty: Vec<Result<i32, String>> = Vec::new();
    assert_eq!(fold_list(empty), Ok(0));
    let bad: Vec<Result<i32, String>> = vec![Ok(1), Err("first".to_string()), Ok(5), Err("second".to_string())];
    assert_eq!(fold_list(bad), Err("first".to_string()));
    let edge: Vec<Result<i32, String>> = vec![Ok(i32::MAX), Ok(-1), Ok(1)];
    assert_eq!(fold_list(edge), Ok(i32::MAX));
}

#[test]
fn decimal_rendering_and_char_collection() {
    assert_eq!(usize_to_decimal(0), "0");
    assert_eq!(usize_to_decimal(1203), "1203");
    assert_eq!(usize_to_decimal(usize::MAX), usize::MAX.to_string());
    assert_eq!(chars_to_string(&vec!['h', 'é', '!']), "hé!");
    assert_eq!(chars_to_string(&Vec::new()), "");
}

#[test]
fn class_method_message_names_the_attribute() {
    assert_eq!(
        class_method_message("cls_attr".to_string()),
        "Successfully called a class method: cls_attr"
    );
    assert_eq!(
        class_method_message("{'qwe': 1}".to_string()),
        "Successfully called a class method: {'qwe': 1}"
    );
}

#[test]
fn sum_as_string_reads_back() {
    for (a, b) in [(0usize, 0usize), (7, 35), (123456, 654321), (usize::MAX - 1, 1)] {
        assert_eq!(sum_as_string(a, b).parse::<usize>(), Ok(a + b));
        assert_eq!(sum_as_string(a, b), sum_as_string(b, a));
    }
}
