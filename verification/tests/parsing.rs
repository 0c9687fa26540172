use cells::{make_key, parse, Formula, FormulaParser, ParseError};

fn lit(text: &str) -> Formula {
    Formula::Value(text.as_bytes().to_vec())
}

fn cell(key: &str) -> Formula {
    Formula::Reference(make_key(key))
}

fn sum(terms: Vec<(Formula, bool)>) -> Formula {
    Formula::Summation(terms)
}

fn product(terms: Vec<(Formula, bool)>) -> Formula {
    Formula::Product(terms)
}

fn formula(text: &str) -> Formula {
    parse(text).unwrap().unwrap()
}

fn fails_at(text: &str) -> usize {
    parse(text).unwrap_err().offset
}

#[test]
fn text_without_the_marker_is_no_formula() {
    assert_eq!(parse(""), Ok(None));
    assert_eq!(parse("hello"), Ok(None));
    assert_eq!(parse("3"), Ok(None));
    assert_eq!(parse("3+4"), Ok(None));
    assert_eq!(parse(" =3+4"), Ok(None));
    assert_eq!(parse("A1"), Ok(None));
    assert_eq!(parse("\u{e9}t\u{e9}"), Ok(None));
    assert_eq!(parse("x=1"), Ok(None));
}

#[test]
fn single_terms_are_not_wrapped() {
    assert_eq!(formula("=7"), lit("7"));
    assert_eq!(formula("=(7)"), lit("7"));
    assert_eq!(formula("=((7))"), lit("7"));
    assert_eq!(formula("=A1"), cell("A1"));
    assert_eq!(formula("= ( A1 ) "), cell("A1"));
}

#[test]
fn numbers_are_decimal_literals() {
    assert_eq!(formula("=12"), lit("12"));
    assert_eq!(formula("=1.5"), lit("1.5"));
    assert_eq!(formula("=3."), lit("3."));
    assert_eq!(formula("=1e3"), lit("1e3"));
    assert_eq!(formula("=2E-2"), lit("2E-2"));
    assert_eq!(formula("=2.5e+10"), lit("2.5e+10"));
    assert_eq!(formula("=-4"), lit("-4"));
    assert_eq!(formula("=-4.25e1"), lit("-4.25e1"));
    assert_eq!(formula("=007"), lit("007"));
}

#[test]
fn an_exponent_needs_digits() {
    assert_eq!(fails_at("=1e"), 2);
    assert_eq!(fails_at("=1e+"), 2);
    assert_eq!(fails_at("=1.e-x"), 3);
    assert_eq!(fails_at("=1.5.2"), 4);
    assert_eq!(fails_at("=.5"), 1);
}

#[test]
fn references_are_case_insensitive() {
    assert_eq!(formula("=a1"), cell("A1"));
    assert_eq!(formula("=b12"), cell("B12"));
    assert_eq!(formula("=Z255"), cell("Z255"));
    assert_eq!(formula("=z0"), cell("Z0"));
    assert_eq!(formula("=c007"), cell("C7"));
}

#[test]
fn references_need_a_row_that_fits() {
    assert_eq!(fails_at("=A"), 2);
    assert_eq!(fails_at("=A+1"), 2);
    assert_eq!(fails_at("=A256"), 1);
    assert_eq!(fails_at("=1+B999"), 3);
    assert_eq!(fails_at("=AB1"), 2);
    assert_eq!(fails_at("=A 1"), 2);
}

#[test]
fn sums_keep_their_terms_in_order() {
    assert_eq!(formula("=3+4"), sum(vec![(lit("3"), false), (lit("4"), false)]));
    assert_eq!(
        formula("=1-2-3"),
        sum(vec![(lit("1"), false), (lit("2"), true), (lit("3"), true)])
    );
    assert_eq!(
        formula("=A2+A3+A4"),
        sum(vec![(cell("A2"), false), (cell("A3"), false), (cell("A4"), false)])
    );
    assert_eq!(formula("=5--3"), sum(vec![(lit("5"), false), (lit("-3"), true)]));
    assert_eq!(formula("=5+-3"), sum(vec![(lit("5"), false), (lit("-3"), false)]));
}

#[test]
fn products_keep_their_terms_in_order() {
    assert_eq!(
        formula("=1*2*3"),
        product(vec![(lit("1"), false), (lit("2"), false), (lit("3"), false)])
    );
    assert_eq!(
        formula("=8/2/2"),
        product(vec![(lit("8"), false), (lit("2"), true), (lit("2"), true)])
    );
    assert_eq!(formula("=-2*3"), product(vec![(lit("-2"), false), (lit("3"), false)]));
    assert_eq!(formula("=a1/b2"), product(vec![(cell("A1"), false), (cell("B2"), true)]));
}

#[test]
fn products_bind_tighter_than_sums() {
    assert_eq!(
        formula("=2+3*4"),
        sum(vec![
            (lit("2"), false),
            (product(vec![(lit("3"), false), (lit("4"), false)]), false)
        ])
    );
    assert_eq!(
        formula("=10/2-1"),
        sum(vec![
            (product(vec![(lit("10"), false), (lit("2"), true)]), false),
            (lit("1"), true)
        ])
    );
    assert_eq!(
        formula("=(2+3)*4"),
        product(vec![
            (sum(vec![(lit("2"), false), (lit("3"), false)]), false),
            (lit("4"), false)
        ])
    );
    assert_eq!(
        formula("=1-(2-3)"),
        sum(vec![
            (lit("1"), false),
            (sum(vec![(lit("2"), false), (lit("3"), true)]), true)
        ])
    );
}

#[test]
fn blanks_may_stand_between_tokens() {
    let plain = formula("=A2+A3*(4-1)");
    assert_eq!(formula("= A2 + A3 * ( 4 - 1 )"), plain);
    assert_eq!(formula("=\tA2\t+\tA3\t*\t(\t4\t-\t1\t)\t"), plain);
    assert_eq!(formula("=   A2+A3*(4-1)   "), plain);
    assert_eq!(fails_at("=1 2"), 3);
    assert_eq!(fails_at("=1\n+2"), 2);
    assert_eq!(fails_at("=- 2"), 1);
    assert_eq!(fails_at("=1 . 5"), 3);
}

#[test]
fn syntax_errors_give_the_offset_of_the_failure() {
    assert_eq!(parse("="), Err(ParseError { offset: 1 }));
    assert_eq!(parse("=  "), Err(ParseError { offset: 3 }));
    assert_eq!(parse("=1+"), Err(ParseError { offset: 3 }));
    assert_eq!(parse("=1+*2"), Err(ParseError { offset: 3 }));
    assert_eq!(parse("=(1+2"), Err(ParseError { offset: 5 }));
    assert_eq!(parse("=(1+2))"), Err(ParseError { offset: 6 }));
    assert_eq!(parse("=()"), Err(ParseError { offset: 2 }));
    assert_eq!(parse("=1+2)"), Err(ParseError { offset: 4 }));
    assert_eq!(parse("=3+4;"), Err(ParseError { offset: 4 }));
    assert_eq!(parse("=3 + 4 rest"), Err(ParseError { offset: 7 }));
    assert_eq!(parse("==1"), Err(ParseError { offset: 1 }));
    assert_eq!(parse("=-A1"), Err(ParseError { offset: 1 }));
    assert_eq!(parse("=+1"), Err(ParseError { offset: 1 }));
    assert_eq!(parse("=1+\u{e9}"), Err(ParseError { offset: 3 }));
    assert_eq!(parse("=$A1"), Err(ParseError { offset: 1 }));
}

#[test]
fn the_rules_of_the_grammar_can_be_read_one_by_one() {
    let parser = FormulaParser::new("=1+2*3 , (4)");
    assert_eq!(parser.parse_value(1), Ok((lit("1"), 2)));
    assert_eq!(
        parser.parse_product(3),
        Ok((product(vec![(lit("2"), false), (lit("3"), false)]), 7))
    );
    assert_eq!(
        parser.parse_summation(1),
        Ok((
            sum(vec![
                (lit("1"), false),
                (product(vec![(lit("2"), false), (lit("3"), false)]), false)
            ]),
            7
        ))
    );
    assert_eq!(parser.parse_expression(5), Ok((lit("3"), 7)));
    assert_eq!(parser.parse_value(8), Ok((lit("4"), 12)));
    assert_eq!(parser.parse_value(12), Err(ParseError { offset: 12 }));
    assert_eq!(parser.parse_value(7), Err(ParseError { offset: 7 }));
    assert_eq!(parser.parse_cell(), Err(ParseError { offset: 7 }));
    assert_eq!(FormulaParser::new("plain").parse_cell(), Ok(None));
}

#[test]
fn deep_nesting_is_read() {
    let mut text = String::from("=");
    for _ in 0..200 {
        text.push('(');
    }
    text.push_str("A1");
    for _ in 0..200 {
        text.push(')');
    }
    assert_eq!(formula(&text), cell("A1"));
    text.pop();
    assert_eq!(fails_at(&text), text.len());
}
