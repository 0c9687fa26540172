use cells::{make_key, parse, EvalError, Formula, Operation};
use std::cell::RefCell;
use std::collections::HashMap;

fn calc(op: Operation<f64>) -> f64 {
    match op {
        Operation::Zero => 0.0,
        Operation::One => 1.0,
        Operation::Nan => f64::NAN,
        Operation::Add(a, b) => a + b,
        Operation::Sub(a, b) => a - b,
        Operation::Mul(a, b) => a * b,
        Operation::Div(a, b) => a / b,
    }
}

fn number(text: &[u8]) -> Option<f64> {
    std::str::from_utf8(text).ok()?.parse().ok()
}

fn known(values: &[(&str, f64)]) -> HashMap<u16, f64> {
    values.iter().map(|(key, v)| (make_key(key).code(), *v)).collect()
}

fn eval(text: &str, values: &[(&str, f64)]) -> Result<f64, EvalError> {
    parse(text).unwrap().unwrap().eval(&known(values), &calc, &number)
}

#[test]
fn literals_evaluate_to_themselves() {
    assert_eq!(eval("=7", &[]), Ok(7.0));
    assert_eq!(eval("=1.5", &[]), Ok(1.5));
    assert_eq!(eval("=-4", &[]), Ok(-4.0));
    assert_eq!(eval("=1e3", &[]), Ok(1000.0));
    assert_eq!(eval("=2E-2", &[]), Ok(0.02));
    assert_eq!(eval("=3.", &[]), Ok(3.0));
}

#[test]
fn sums_accumulate_from_the_left() {
    assert_eq!(eval("=3+4", &[]), Ok(7.0));
    assert_eq!(eval("=1-2-3", &[]), Ok(-4.0));
    assert_eq!(eval("=1-(2-3)", &[]), Ok(2.0));
    assert_eq!(eval("=5--3", &[]), Ok(8.0));
    assert_eq!(eval("=0.1+0.2", &[]), Ok(0.1 + 0.2));
    assert_eq!(eval("=1e16+1-1e16", &[]), Ok((1e16 + 1.0) - 1e16));
}

#[test]
fn products_accumulate_from_the_left() {
    assert_eq!(eval("=2*3*4", &[]), Ok(24.0));
    assert_eq!(eval("=8/2/2", &[]), Ok(2.0));
    assert_eq!(eval("=8/(2/2)", &[]), Ok(8.0));
    assert_eq!(eval("=1/3*3", &[]), Ok(1.0 / 3.0 * 3.0));
}

#[test]
fn precedence_is_kept() {
    assert_eq!(eval("=10/2-1", &[]), Ok(4.0));
    assert_eq!(eval("=2+3*4", &[]), Ok(14.0));
    assert_eq!(eval("=(2+3)*4", &[]), Ok(20.0));
    assert_eq!(eval("=2*3+4*5", &[]), Ok(26.0));
    assert_eq!(eval("=2-3*4-5", &[]), Ok(-15.0));
}

#[test]
fn division_by_zero_is_no_error() {
    assert_eq!(eval("=1/0", &[]), Ok(f64::INFINITY));
    assert_eq!(eval("=-1/0", &[]), Ok(f64::NEG_INFINITY));
    assert!(eval("=0/0", &[]).unwrap().is_nan());
    assert!(eval("=1/0-1/0", &[]).unwrap().is_nan());
}

#[test]
fn a_sum_starts_at_zero_and_a_product_at_one() {
    let sum = Formula::Summation(vec![(Formula::Value(b"-0".to_vec()), false)]);
    let value = sum.eval(&HashMap::new(), &calc, &number).unwrap();
    assert!(value == 0.0 && value.is_sign_positive());
    let product = Formula::Product(vec![(Formula::Value(b"4".to_vec()), true)]);
    assert_eq!(product.eval(&HashMap::new(), &calc, &number), Ok(0.25));
    assert_eq!(Formula::Summation(vec![]).eval(&HashMap::new(), &calc, &number), Ok(0.0));
    assert_eq!(Formula::Product(vec![]).eval(&HashMap::new(), &calc, &number), Ok(1.0));
    let negated = Formula::Summation(vec![(Formula::Value(b"4".to_vec()), true)]);
    assert_eq!(negated.eval(&HashMap::new(), &calc, &number), Ok(-4.0));
}

#[test]
fn references_take_the_known_value() {
    let values = [("A2", 3.0), ("A3", 4.0), ("A4", 5.0)];
    assert_eq!(eval("=A2", &values), Ok(3.0));
    assert_eq!(eval("=A2+A3+A4", &values), Ok(12.0));
    assert_eq!(eval("=A2*A3*A4", &values), Ok(60.0));
    assert_eq!(eval("=a2*(a3-A4)", &values), Ok(-3.0));
}

#[test]
fn an_unknown_reference_is_a_dependency() {
    let values = [("A2", 3.0)];
    assert_eq!(eval("=A1", &values), Err(EvalError::Dependency));
    assert_eq!(eval("=A2+A3", &values), Err(EvalError::Dependency));
    assert_eq!(eval("=A3+A2", &values), Err(EvalError::Dependency));
    assert_eq!(eval("=A2*(1+(2*B7))", &values), Err(EvalError::Dependency));
    assert_eq!(eval("=0*A3", &values), Err(EvalError::Dependency));
}

#[test]
fn a_known_nan_goes_through_the_arithmetic() {
    let values = [("A1", f64::NAN), ("A2", 1.0)];
    assert!(eval("=A1", &values).unwrap().is_nan());
    assert!(eval("=A1+A2", &values).unwrap().is_nan());
    assert!(eval("=A2*A1", &values).unwrap().is_nan());
    assert!(eval("=A2-(A1/A2)", &values).unwrap().is_nan());
}

#[test]
fn evaluation_stops_at_the_first_dependency() {
    let asked = RefCell::new(Vec::new());
    let counting = |op: Operation<f64>| {
        asked.borrow_mut().push(format!("{:?}", op));
        calc(op)
    };
    let formula = parse("=1+A1+2").unwrap().unwrap();
    assert_eq!(
        formula.eval(&HashMap::new(), &counting, &number),
        Err(EvalError::Dependency)
    );
    assert_eq!(*asked.borrow(), vec!["Zero".to_string(), "Add(0.0, 1.0)".to_string()]);
}

#[test]
fn the_arithmetic_is_asked_in_order() {
    let asked = RefCell::new(Vec::new());
    let counting = |op: Operation<f64>| {
        asked.borrow_mut().push(format!("{:?}", op));
        calc(op)
    };
    let formula = parse("=1-2*3/4").unwrap().unwrap();
    assert_eq!(formula.eval(&HashMap::new(), &counting, &number), Ok(-0.5));
    assert_eq!(
        *asked.borrow(),
        vec![
            "Zero".to_string(),
            "Add(0.0, 1.0)".to_string(),
            "One".to_string(),
            "Mul(1.0, 2.0)".to_string(),
            "Mul(2.0, 3.0)".to_string(),
            "Div(6.0, 4.0)".to_string(),
            "Sub(1.0, 1.5)".to_string(),
        ]
    );
}

#[test]
fn a_number_that_the_host_cannot_read_is_not_a_number() {
    let picky = |text: &[u8]| if text == b"13" { None } else { number(text) };
    let formula = parse("=13").unwrap().unwrap();
    assert!(formula.eval(&HashMap::new(), &calc, &picky).unwrap().is_nan());
    let formula = parse("=12+1").unwrap().unwrap();
    assert_eq!(formula.eval(&HashMap::new(), &calc, &picky), Ok(13.0));
}

#[test]
fn the_number_type_is_the_hosts_choice() {
    let calc = |op: Operation<i64>| match op {
        Operation::Zero => 0,
        Operation::One => 1,
        Operation::Nan => i64::MIN,
        Operation::Add(a, b) => a.wrapping_add(b),
        Operation::Sub(a, b) => a.wrapping_sub(b),
        Operation::Mul(a, b) => a.wrapping_mul(b),
        Operation::Div(a, b) => a.checked_div(b).unwrap_or(i64::MIN),
    };
    let number = |text: &[u8]| std::str::from_utf8(text).ok()?.parse::<i64>().ok();
    let values: HashMap<u16, i64> = [(make_key("A1").code(), 6)].into_iter().collect();
    let formula = parse("=7/2+A1*2").unwrap().unwrap();
    assert_eq!(formula.eval(&values, &calc, &number), Ok(15));
}
