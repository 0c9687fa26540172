use cells::{make_key, parse, Formula, Key};

fn value_text(formula: &Formula) -> String {
    match formula {
        Formula::Value(text) => String::from_utf8(text.clone()).unwrap(),
        Formula::Reference(key) => key.label(),
        Formula::Summation(terms) => format!("({})", joined(terms, false)),
        Formula::Product(terms) => format!("({})", joined(terms, true)),
    }
}

fn product_text(formula: &Formula) -> String {
    match formula {
        Formula::Product(terms) => joined(terms, true),
        other => value_text(other),
    }
}

fn joined(terms: &[(Formula, bool)], product: bool) -> String {
    let mut text = String::new();
    for (i, (term, flag)) in terms.iter().enumerate() {
        if i > 0 {
            text.push(match (product, *flag) {
                (true, true) => '/',
                (true, false) => '*',
                (false, true) => '-',
                (false, false) => '+',
            });
        }
        text.push_str(&if product { value_text(term) } else { product_text(term) });
    }
    text
}

fn formula_text(formula: &Formula) -> String {
    match formula {
        Formula::Summation(terms) => joined(terms, false),
        other => product_text(other),
    }
}

fn spaced(text: &str, blank: &str) -> String {
    let mut out = String::new();
    let bytes = text.as_bytes();
    for (i, b) in bytes.iter().enumerate() {
        let token_goes_on = i > 0
            && (b.is_ascii_alphanumeric() || *b == b'.')
            && (bytes[i - 1].is_ascii_alphanumeric() || bytes[i - 1] == b'.');
        let sign_of_number = i > 0
            && b.is_ascii_digit()
            && bytes[i - 1] == b'-'
            && (i == 1 || b"+-*/(".contains(&bytes[i - 2]));
        let sign_of_exponent = i > 1
            && (bytes[i - 1] == b'e' || bytes[i - 1] == b'E'
                || ((bytes[i - 1] == b'-' || bytes[i - 1] == b'+')
                    && (bytes[i - 2] == b'e' || bytes[i - 2] == b'E')));
        if i > 0 && !token_goes_on && !sign_of_number && !sign_of_exponent {
            out.push_str(blank);
        }
        out.push(*b as char);
    }
    out
}

fn clone(formula: &Formula) -> Formula {
    match formula {
        Formula::Value(text) => Formula::Value(text.clone()),
        Formula::Reference(key) => Formula::Reference(*key),
        Formula::Summation(terms) => {
            Formula::Summation(terms.iter().map(|(t, f)| (clone(t), *f)).collect())
        }
        Formula::Product(terms) => {
            Formula::Product(terms.iter().map(|(t, f)| (clone(t), *f)).collect())
        }
    }
}

fn leaves() -> Vec<Formula> {
    let mut all: Vec<Formula> = ["0", "7", "-2", "3.5", "10.", "1e3", "-4.25E-1", "2e+2"]
        .iter()
        .map(|text| Formula::Value(text.as_bytes().to_vec()))
        .collect();
    for key in ["A0", "A1", "M100", "Z255"] {
        all.push(Formula::Reference(make_key(key)));
    }
    all
}

fn compounds(parts: &[Formula]) -> Vec<Formula> {
    let mut all = Vec::new();
    for (i, a) in parts.iter().enumerate() {
        for (j, b) in parts.iter().enumerate() {
            if (i + 2 * j) % 5 != 0 {
                continue;
            }
            for flag in [false, true] {
                all.push(Formula::Summation(vec![(clone(a), false), (clone(b), flag)]));
                all.push(Formula::Product(vec![(clone(a), false), (clone(b), flag)]));
            }
            let c = &parts[(i + j) % parts.len()];
            all.push(Formula::Summation(vec![
                (clone(a), false),
                (clone(b), true),
                (clone(c), false),
            ]));
            all.push(Formula::Product(vec![
                (clone(a), false),
                (clone(b), false),
                (clone(c), true),
            ]));
        }
    }
    all
}

#[test]
fn written_formulas_read_back() {
    let leaves = leaves();
    let simple = compounds(&leaves);
    let mut pool: Vec<Formula> = leaves.iter().map(clone).collect();
    pool.extend(simple.iter().step_by(7).map(clone));
    let nested = compounds(&pool);
    let mut count = 0;
    for formula in leaves.iter().chain(simple.iter()).chain(nested.iter()) {
        let text = format!("={}", formula_text(formula));
        assert_eq!(parse(&text).as_ref(), Ok(&Some(clone(formula))), "{}", text);
        count += 1;
    }
    assert!(count > 1000);
}

#[test]
fn blanks_between_tokens_change_nothing() {
    let leaves = leaves();
    let simple = compounds(&leaves);
    let mut pool: Vec<Formula> = leaves.iter().map(clone).collect();
    pool.extend(simple.iter().step_by(11).map(clone));
    let nested = compounds(&pool);
    for formula in simple.iter().chain(nested.iter().step_by(3)) {
        let text = formula_text(formula);
        for blank in [" ", "\t", "  \t "] {
            let wide = format!("={}{}{}", blank, spaced(&text, blank), blank);
            assert_eq!(parse(&wide).as_ref(), Ok(&Some(clone(formula))), "{}", wide);
        }
    }
}

#[test]
fn writing_puts_parentheses_where_they_are_needed() {
    let one = || Formula::Value(b"1".to_vec());
    let a1 = || Formula::Reference(Key::from_text(b"A1").unwrap());
    let sum = Formula::Summation(vec![(one(), false), (a1(), true)]);
    let product = Formula::Product(vec![(one(), false), (a1(), true)]);
    assert_eq!(formula_text(&sum), "1-A1");
    assert_eq!(formula_text(&product), "1/A1");
    let nested = Formula::Product(vec![(clone(&sum), false), (clone(&product), true)]);
    assert_eq!(formula_text(&nested), "(1-A1)/(1/A1)");
    let mixed = Formula::Summation(vec![(clone(&product), false), (clone(&sum), true)]);
    assert_eq!(formula_text(&mixed), "1/A1-(1-A1)");
    assert_eq!(parse("=(1-A1)/(1/A1)"), Ok(Some(nested)));
    assert_eq!(parse("=1/A1-(1-A1)"), Ok(Some(mixed)));
}
