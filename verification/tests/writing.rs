use intlines::decimal::{push_decimal, push_digits};
use intlines::reader::{parse_line, parse_numbers, read_numbers};
use intlines::writer::{render_number, render_numbers, write_numbers};

#[test]
fn renders_one_integer_to_a_line() {
    assert_eq!(render_numbers(&[-3, 0, 42]), "-3\n0\n42\n");
    assert_eq!(write_numbers(&[-3, 0, 42]), b"-3\n0\n42\n".to_vec());
}

#[test]
fn no_integers_render_to_nothing() {
    assert_eq!(render_numbers(&[]), "");
    assert_eq!(write_numbers(&[]), Vec::<u8>::new());
}

#[test]
fn renders_the_limits() {
    assert_eq!(render_number(i32::MAX), "2147483647");
    assert_eq!(render_number(i32::MIN), "-2147483648");
    assert_eq!(render_number(0), "0");
    assert_eq!(render_number(-1), "-1");
    assert_eq!(render_number(10), "10");
    assert_eq!(render_number(1000000000), "1000000000");
    assert_eq!(render_number(-907), "-907");
}

#[test]
fn renders_as_the_standard_notation() {
    let mut n: i32 = i32::MIN;
    loop {
        assert_eq!(render_number(n), format!("{}", n));
        match n.checked_add(9_999_991) {
            Some(next) => n = next,
            None => break,
        }
    }
    for n in -1100..1100 {
        assert_eq!(render_number(n), format!("{}", n));
    }
}

#[test]
fn appends_digits() {
    let mut out = String::from("n=");
    push_digits(&mut out, 0);
    push_digits(&mut out, 4294967295);
    push_digits(&mut out, 120);
    assert_eq!(out, "n=04294967295120");
}

#[test]
fn appends_a_notation() {
    let mut out = String::from("[");
    push_decimal(&mut out, -12);
    push_decimal(&mut out, 0);
    push_decimal(&mut out, 340);
    assert_eq!(out, "[-120340");
}

#[test]
fn reading_what_was_rendered_gives_it_back() {
    let samples: Vec<Vec<i32>> = vec![
        vec![],
        vec![0],
        vec![-3, 0, 42],
        vec![i32::MIN, i32::MAX, -1, 1, 0, 0],
        vec![7, 7, 7],
        vec![1000000000, -1000000000, 999999999, 2147483646, -2147483647],
    ];
    for numbers in samples {
        assert_eq!(parse_numbers(&render_numbers(&numbers)), numbers);
        assert_eq!(read_numbers(&write_numbers(&numbers)), Ok(numbers));
    }
}

#[test]
fn reading_a_rendered_run_gives_it_back() {
    let mut numbers: Vec<i32> = Vec::new();
    let mut n: i32 = i32::MIN;
    loop {
        numbers.push(n);
        match n.checked_add(123_456_789) {
            Some(next) => n = next,
            None => break,
        }
    }
    assert_eq!(parse_numbers(&render_numbers(&numbers)), numbers);
}

#[test]
fn a_notation_is_a_line_of_its_number() {
    for n in [i32::MIN, -10, -9, -1, 0, 1, 9, 10, 99, 100, i32::MAX] {
        assert_eq!(parse_line(&render_number(n)), Some(n));
    }
}
