//! Formulas as text: the text that writes a formula, and the proof that the
//! grammar reads it back.

use crate::formula::{lemma_well_formed_terms, well_formed_terms, Expr};
use crate::key::{all_digits, column_byte, decimal, is_digit, label_bytes, letter_position, Key};
use crate::parser::{
    collapse, digits_end, is_blank, is_number, number_end, parse_cell, product_at, product_rest,
    reference_at, starts_number, summation_at, summation_rest, value_at,
};
use vstd::prelude::*;

verus! {

/// Whether `part` stands in `s` from `pos` on.
pub open spec fn stands_at(s: Seq<u8>, pos: int, part: Seq<u8>) -> bool {
    &&& 0 <= pos
    &&& pos + part.len() <= s.len()
    &&& forall|i: int| 0 <= i < part.len() ==> s[pos + i] == #[trigger] part[i]
}

/// Whether no digit stands in `s` at `pos`.
pub open spec fn no_digit_at(s: Seq<u8>, pos: int) -> bool {
    pos >= s.len() || !is_digit(s[pos])
}

/// Digits end in a text where they end in a part of it, if no digit follows
/// the part.
pub proof fn lemma_digits_stand(s: Seq<u8>, pos: int, part: Seq<u8>, i: int)
    requires
        stands_at(s, pos, part),
        0 <= i <= part.len(),
        no_digit_at(s, pos + part.len()),
    ensures
        digits_end(s, pos + i) == pos + digits_end(part, i),
        i <= digits_end(part, i) <= part.len(),
    decreases part.len() - i,
{
    if i < part.len() {
        assert(s[pos + i] == part[i]);
        if is_digit(part[i]) {
            lemma_digits_stand(s, pos, part, i + 1);
        }
    }
}

/// Digits write the same number in a text as in a part of it.
pub proof fn lemma_decimal_stands(s: Seq<u8>, pos: int, part: Seq<u8>, from: int, to: int)
    requires
        stands_at(s, pos, part),
        0 <= from <= to <= part.len(),
    ensures
        decimal(s, pos + from, pos + to) == decimal(part, from, to),
        all_digits(part, from, to) ==> all_digits(s, pos + from, pos + to),
    decreases to - from,
{
    if from < to {
        lemma_decimal_stands(s, pos, part, from, to - 1);
        assert(s[pos + (to - 1)] == part[to - 1]);
    }
    if all_digits(part, from, to) {
        assert forall|j: int| pos + from <= j < pos + to implies is_digit(#[trigger] s[j]) by {
            assert(s[pos + (j - pos)] == part[j - pos]);
            assert(is_digit(part[j - pos]));
        }
    }
}

/// Whether a byte may follow a value in a formula without blanks: an
/// operator or a closing parenthesis.
pub open spec fn closes_value(b: u8) -> bool {
    b == 42 || b == 47 || b == 43 || b == 45 || b == 41
}

/// Whether the text ends at `pos` or goes on with a byte that may follow a
/// value.
pub open spec fn value_ends(s: Seq<u8>, pos: int) -> bool {
    pos >= s.len() || closes_value(s[pos])
}

/// A number is read from a text as it is read alone, if the text ends after
/// it or goes on with an operator or a closing parenthesis.
pub proof fn lemma_number_stands(s: Seq<u8>, pos: int, part: Seq<u8>)
    requires
        stands_at(s, pos, part),
        is_number(part),
        value_ends(s, pos + part.len()),
    ensures
        starts_number(s, pos),
        number_end(s, pos) == pos + part.len(),
        s.subrange(pos, pos + part.len()) == part,
{
    let n = part.len() as int;
    assert(s[pos + 0] == part[0]);
    if n > 1 {
        assert(s[pos + 1] == part[1]);
    }
    let first = if part[0] == 45 {
        1int
    } else {
        0int
    };
    lemma_digits_stand(s, pos, part, first);
    let whole = digits_end(part, first);
    if whole < n {
        assert(s[pos + whole] == part[whole]);
        lemma_digits_stand(s, pos, part, whole + 1);
    }
    let fraction = if whole < n && part[whole] == 46 {
        digits_end(part, whole + 1)
    } else {
        whole
    };
    if fraction < n {
        assert(s[pos + fraction] == part[fraction]);
    }
    if fraction + 1 < n {
        assert(s[pos + (fraction + 1)] == part[fraction + 1]);
        lemma_digits_stand(s, pos, part, fraction + 1);
    }
    if fraction + 2 < n {
        assert(s[pos + (fraction + 2)] == part[fraction + 2]);
        lemma_digits_stand(s, pos, part, fraction + 2);
    }
    assert(number_end(s, pos) == pos + n);
    assert(s.subrange(pos, pos + n) =~= part);
}

/// Whether the text ends at `pos` or goes on with a byte that may follow a
/// product: a plus or minus sign or a closing parenthesis.
pub open spec fn product_ends(s: Seq<u8>, pos: int) -> bool {
    pos >= s.len() || s[pos] == 43 || s[pos] == 45 || s[pos] == 41
}

/// Whether the text ends at `pos` or goes on with a closing parenthesis.
pub open spec fn summation_ends(s: Seq<u8>, pos: int) -> bool {
    pos >= s.len() || s[pos] == 41
}

/// The sign that stands before a term: `*` or `/` in a product, `+` or `-`
/// in a summation.
pub open spec fn operator(product: bool, flag: bool) -> u8 {
    if product {
        if flag {
            47
        } else {
            42
        }
    } else {
        if flag {
            45
        } else {
            43
        }
    }
}

/// The text that writes a formula as a value: a number or an address as it
/// is, a summation or product in parentheses.
pub open spec fn value_text(e: Expr) -> Seq<u8>
    decreases e, 0nat,
{
    match e {
        Expr::Value(text) => text,
        Expr::Reference(key) => label_bytes(key.column(), key.line()),
        Expr::Summation(terms) => seq![40u8] + joined(terms, terms.len(), false) + seq![41u8],
        Expr::Product(terms) => seq![40u8] + joined(terms, terms.len(), true) + seq![41u8],
    }
}

/// The text that writes a formula as a term of a summation: a product as its
/// terms joined by their signs, anything else as a value.
pub open spec fn product_text(e: Expr) -> Seq<u8>
    decreases e, 1nat,
{
    match e {
        Expr::Product(terms) => joined(terms, terms.len(), true),
        _ => value_text(e),
    }
}

/// The text that writes the first `n` of the terms of a product or of a
/// summation, joined by their signs.
pub open spec fn joined(terms: Seq<(Expr, bool)>, n: nat, product: bool) -> Seq<u8>
    decreases terms, n,
{
    if n == 0 || n > terms.len() {
        Seq::empty()
    } else {
        joined(terms, (n - 1) as nat, product) + (if n == 1 {
            Seq::empty()
        } else {
            seq![operator(product, terms[n - 1].1)]
        }) + (if product {
            value_text(terms[n - 1].0)
        } else {
            product_text(terms[n - 1].0)
        })
    }
}

/// The text that writes a formula, without blanks and with no parentheses
/// but those that are needed.
pub open spec fn formula_text(e: Expr) -> Seq<u8> {
    match e {
        Expr::Summation(terms) => joined(terms, terms.len(), false),
        _ => product_text(e),
    }
}

/// An address is read from a text as the reference to its key, if no digit
/// follows it.
proof fn lemma_reference_stands(s: Seq<u8>, pos: int, key: Key)
    requires
        0 <= key.column() < 26,
        0 <= key.line() < 256,
        stands_at(s, pos, label_bytes(key.column(), key.line())),
        no_digit_at(s, pos + label_bytes(key.column(), key.line()).len()),
    ensures
        reference_at(s, pos) == Ok::<(Expr, int), int>(
            (Expr::Reference(key), pos + label_bytes(key.column(), key.line()).len()),
        ),
        s[pos] == column_byte(key.column()),
{
    let label = label_bytes(key.column(), key.line());
    let n = label.len() as int;
    Key::lemma_label_reads_back(key.column(), key.line());
    Key::lemma_parts(key);
    assert(s[pos + 0] == label[0]);
    assert(s[pos + 1] == label[1]);
    lemma_digits_stand(s, pos, label, 1);
    lemma_all_digits_end(label, 1, n);
    lemma_decimal_stands(s, pos, label, 1, n);
}

/// Digits end where a run of digits ends that reaches the end of the text.
proof fn lemma_all_digits_end(s: Seq<u8>, from: int, to: int)
    requires
        0 <= from <= to == s.len(),
        all_digits(s, from, to),
    ensures
        digits_end(s, from) == to,
    decreases to - from,
{
    if from < to {
        assert(is_digit(s[from]));
        lemma_all_digits_end(s, from + 1, to);
    }
}

/// A well-formed formula, written as a value, is read back as a value.
proof fn lemma_value_reads(s: Seq<u8>, pos: int, e: Expr)
    requires
        e.well_formed(),
        stands_at(s, pos, value_text(e)),
        value_ends(s, pos + value_text(e).len()),
    ensures
        value_text(e).len() > 0,
        value_at(s, pos) == Ok::<(Expr, int), int>((e, pos + value_text(e).len())),
    decreases e, 0nat,
{
    let text = value_text(e);
    let end = pos + text.len();
    match e {
        Expr::Value(number) => {
            lemma_number_stands(s, pos, number);
        },
        Expr::Reference(key) => {
            lemma_reference_stands(s, pos, key);
        },
        Expr::Summation(terms) => {
            lemma_well_formed_terms(terms);
            let inner = joined(terms, terms.len(), false);
            assert(s[pos + 0] == text[0]);
            assert(s[pos + (inner.len() + 1)] == text[inner.len() as int + 1]);
            assert(stands_at(s, pos + 1, inner)) by {
                assert forall|i: int| 0 <= i < inner.len() implies s[pos + 1 + i]
                    == #[trigger] inner[i] by {
                    assert(s[pos + (i + 1)] == text[i + 1]);
                }
            }
            lemma_terms_read(s, pos + 1, terms, terms.len(), false);
            assert(terms.take(terms.len() as int) =~= terms);
        },
        Expr::Product(terms) => {
            lemma_well_formed_terms(terms);
            let inner = joined(terms, terms.len(), true);
            assert(s[pos + 0] == text[0]);
            assert(s[pos + (inner.len() + 1)] == text[inner.len() as int + 1]);
            assert(stands_at(s, pos + 1, inner)) by {
                assert forall|i: int| 0 <= i < inner.len() implies s[pos + 1 + i]
                    == #[trigger] inner[i] by {
                    assert(s[pos + (i + 1)] == text[i + 1]);
                }
            }
            lemma_terms_read(s, pos + 1, terms, terms.len(), true);
            assert(terms.take(terms.len() as int) =~= terms);
            assert(collapse(seq![(e, false)], false) == e);
        },
    }
}

/// A well-formed formula, written as a term of a summation, is read back as
/// a product.
proof fn lemma_product_reads(s: Seq<u8>, pos: int, e: Expr)
    requires
        e.well_formed(),
        stands_at(s, pos, product_text(e)),
        product_ends(s, pos + product_text(e).len()),
    ensures
        product_text(e).len() > 0,
        product_at(s, pos) == Ok::<(Expr, int), int>((e, pos + product_text(e).len())),
    decreases e, 1nat,
{
    match e {
        Expr::Product(terms) => {
            lemma_well_formed_terms(terms);
            lemma_terms_read(s, pos, terms, terms.len(), true);
            assert(terms.take(terms.len() as int) =~= terms);
        },
        _ => {
            lemma_value_reads(s, pos, e);
            assert(collapse(seq![(e, false)], true) == e);
        },
    }
}

/// The first `n` terms of a product or summation are read back one after
/// another.
proof fn lemma_terms_read(s: Seq<u8>, start: int, terms: Seq<(Expr, bool)>, n: nat, product: bool)
    requires
        well_formed_terms(terms),
        1 <= n <= terms.len(),
        stands_at(s, start, joined(terms, n, product)),
        if product {
            value_ends(s, start + joined(terms, n, product).len())
        } else {
            product_ends(s, start + joined(terms, n, product).len())
        },
    ensures
        joined(terms, n, product).len() > 0,
        product ==> product_at(s, start) == product_rest(
            s,
            start + joined(terms, n, product).len(),
            terms.take(n as int),
        ),
        !product ==> summation_at(s, start) == summation_rest(
            s,
            start + joined(terms, n, product).len(),
            terms.take(n as int),
        ),
    decreases terms, n,
{
    let text = joined(terms, n, product);
    let term = terms[n - 1].0;
    let last = if product {
        value_text(term)
    } else {
        product_text(term)
    };
    let end = start + text.len();
    if n == 1 {
        assert(joined(terms, 0, product) =~= Seq::<u8>::empty());
        assert(text =~= Seq::<u8>::empty() + Seq::<u8>::empty() + last);
        assert(text =~= last);
        assert(terms.take(1) =~= seq![(term, false)]);
        if product {
            lemma_value_reads(s, start, term);
        } else {
            lemma_product_reads(s, start, term);
        }
    } else {
        let before = joined(terms, (n - 1) as nat, product);
        let sign = operator(product, terms[n - 1].1);
        let at = start + before.len();
        assert(text =~= before + seq![sign] + last);
        assert(stands_at(s, start, before)) by {
            assert forall|i: int| 0 <= i < before.len() implies s[start + i]
                == #[trigger] before[i] by {
                assert(s[start + i] == text[i]);
            }
        }
        assert(s[at] == sign) by {
            assert(s[start + before.len()] == text[before.len() as int]);
        }
        assert(stands_at(s, at + 1, last)) by {
            assert forall|i: int| 0 <= i < last.len() implies s[at + 1 + i]
                == #[trigger] last[i] by {
                assert(s[start + (before.len() + 1 + i)] == text[before.len() + 1 + i]);
            }
        }
        lemma_terms_read(s, start, terms, (n - 1) as nat, product);
        assert(terms.take(n as int) =~= terms.take(n - 1).push((term, terms[n - 1].1)));
        if product {
            lemma_value_reads(s, at + 1, term);
        } else {
            lemma_product_reads(s, at + 1, term);
        }
    }
}

/// Every well-formed formula can be written as a text that is read back as
/// the same formula: the formula sign and then the formula's terms with their
/// signs, in parentheses where a summation or product stands for a value.
pub proof fn lemma_written_formula_reads_back(e: Expr)
    requires
        e.well_formed(),
    ensures
        parse_cell(seq![61u8] + formula_text(e)) == Ok::<Option<Expr>, int>(Some(e)),
{
    let text = formula_text(e);
    let s = seq![61u8] + text;
    assert(stands_at(s, 1, text)) by {
        assert forall|i: int| 0 <= i < text.len() implies s[1 + i] == #[trigger] text[i] by {}
    }
    match e {
        Expr::Summation(terms) => {
            lemma_well_formed_terms(terms);
            lemma_terms_read(s, 1, terms, terms.len(), false);
            assert(terms.take(terms.len() as int) =~= terms);
        },
        _ => {
            lemma_product_reads(s, 1, e);
            assert(collapse(seq![(e, false)], false) == e);
        },
    }
}

} // verus!
