use cells::{make_key, parse, Cell, CellData, EvalError, Formula, Key, Operation, ParseError};
use std::collections::HashMap;

fn calc(op: Operation<f64>) -> f64 {
    match op {
        Operation::Zero => 0.0,
        Operation::One => 1.0,
        Operation::Nan => f64::NAN,
        Operation::Add(a, b) => a + b,
        Operation::Sub(a, b) => a - b,
        Operation::Mul(a, b) => a * b,
        Operation::Div(a, b) => a / b,
    }
}

fn number(text: &[u8]) -> Option<f64> {
    std::str::from_utf8(text).ok()?.parse().ok()
}

fn show(v: f64) -> String {
    v.to_string()
}

fn literal(text: &str) -> Formula {
    Formula::Value(text.as_bytes().to_vec())
}

fn eval(text: &str, values: &HashMap<u16, f64>) -> Result<f64, EvalError> {
    let formula = parse(text).unwrap().unwrap();
    formula.eval(values, &calc, &number)
}

fn recalculate(data: &mut CellData<f64>) {
    data.update_values(&calc, &number, &show);
}

fn grid(cells: &[(&str, &str)]) -> CellData<f64> {
    let mut data = CellData::new();
    for (key, text) in cells {
        data.set(make_key(key), text.to_string());
    }
    recalculate(&mut data);
    data
}

fn shown(data: &CellData<f64>, key: &str) -> String {
    data.snapshot(make_key(key)).1
}

#[test]
fn unassigned_cell_is_blank() {
    let data: CellData<f64> = CellData::new();
    assert_eq!(data.snapshot(make_key("Q17")), (String::new(), String::new(), false));
    let data = grid(&[("A1", "1")]);
    assert_eq!(data.snapshot(make_key("B1")), (String::new(), String::new(), false));
}

#[test]
fn sum_of_two_literals() {
    let formula = parse("=3+4").unwrap().unwrap();
    assert_eq!(
        formula,
        Formula::Summation(vec![(literal("3"), false), (literal("4"), false)])
    );
    assert_eq!(formula.eval(&HashMap::new(), &calc, &number), Ok(7.0));
}

#[test]
fn division_binds_tighter_than_subtraction() {
    let formula = parse("=10/2-1").unwrap().unwrap();
    assert_eq!(
        formula,
        Formula::Summation(vec![
            (
                Formula::Product(vec![(literal("10"), false), (literal("2"), true)]),
                false
            ),
            (literal("1"), true),
        ])
    );
    assert_eq!(formula.eval(&HashMap::new(), &calc, &number), Ok(4.0));
}

#[test]
fn sums_and_products_of_cells() {
    let data = grid(&[
        ("A1", "Some values"),
        ("A2", "3"),
        ("A3", "4"),
        ("A4", "5"),
        ("B1", "Sum"),
        ("B2", "= A2 + A3 + A4"),
        ("C1", "Prod"),
        ("C2", "= A2 * A3 * A4"),
    ]);
    assert_eq!(data.value(make_key("B2")), Some(12.0));
    assert_eq!(data.value(make_key("C2")), Some(60.0));
    assert_eq!(shown(&data, "B2"), "12");
    assert_eq!(shown(&data, "C2"), "60");
    assert_eq!(shown(&data, "A1"), "Some values");
    assert_eq!(data.value(make_key("A1")), None);
    assert_eq!(data.value(make_key("A2")), Some(3.0));
}

#[test]
fn syntax_error_spreads_as_nan() {
    let data = grid(&[("A1", "=1+"), ("B1", "=A1+1")]);
    assert_eq!(data.snapshot(make_key("A1")), ("=1+".to_string(), "BAD FORMULA".to_string(), true));
    assert!(data.value(make_key("A1")).unwrap().is_nan());
    assert!(data.value(make_key("B1")).unwrap().is_nan());
    assert_eq!(data.snapshot(make_key("B1")), ("=A1+1".to_string(), "NaN".to_string(), false));
}

#[test]
fn cycles_end_as_reference_errors() {
    let data = grid(&[("A1", "=A1"), ("B1", "=B2+1"), ("B2", "=B1*2"), ("C1", "7")]);
    assert_eq!(shown(&data, "A1"), "Ref error");
    assert_eq!(shown(&data, "B1"), "Ref error");
    assert_eq!(shown(&data, "B2"), "Ref error");
    assert_eq!(shown(&data, "C1"), "7");
    assert_eq!(data.value(make_key("A1")), None);
    assert_eq!(data.value(make_key("B1")), None);
}

#[test]
fn missing_reference_is_a_reference_error() {
    let data = grid(&[("A1", "=Z9+1"), ("A2", "=A3"), ("A3", "words")]);
    assert_eq!(shown(&data, "A1"), "Ref error");
    assert_eq!(shown(&data, "A2"), "Ref error");
    assert_eq!(shown(&data, "A3"), "words");
    assert!(!data.snapshot(make_key("A1")).2);
}

#[test]
fn chains_resolve_whatever_their_order() {
    let data = grid(&[
        ("A1", "=A2+1"),
        ("A2", "=A3+1"),
        ("A3", "=A4+1"),
        ("A4", "=A5+1"),
        ("A5", "1"),
    ]);
    assert_eq!(shown(&data, "A1"), "5");
    assert_eq!(shown(&data, "A2"), "4");
    assert_eq!(shown(&data, "A3"), "3");
    assert_eq!(shown(&data, "A4"), "2");
    assert_eq!(eval("=(1+2)*3", &HashMap::new()), Ok(9.0));
    let _ = Key::default();
    let _ = Cell::default();
    assert_eq!(parse("=1+"), Err(ParseError { offset: 3 }));
}
