//! The formula grammar.
//!
//! ```text
//! cell        := formula | text
//! formula     := '=' expression
//! expression  := summation
//! summation   := product ( ('+' | '-') product )*
//! product     := value ( ('*' | '/') value )*
//! value       := number | reference | '(' expression ')'
//! reference   := letter digit+
//! number      := '-'? digit+ ( '.' digit* )? ( ('e' | 'E') ('+' | '-')? digit+ )?
//! ```
//!
//! A text is a formula exactly when its first byte is `=`. Blanks (space and
//! tab) may stand between the tokens of a formula, and nowhere inside a number
//! or a reference. A summation or product of a single term is that term.

use crate::formula::{lemma_well_formed_terms, terms_view, well_formed_terms, Expr, Formula};
use crate::key::{all_digits, decimal, is_digit, is_letter, letter_position, read_row, ColKey, Key};
use crate::writing::{lemma_digits_stand, no_digit_at, stands_at};
use vstd::prelude::*;
use vstd::slice::{slice_subrange, slice_to_vec};
use vstd::string::StringSliceAdditionalSpecFns;

verus! {

/// A text that opens as a formula and does not follow the grammar.
#[derive(Clone, Copy, Debug, PartialEq, Eq, Structural)]
pub struct ParseError {
    /// Offset of the byte at which the text stops following the grammar; the
    /// length of the text where it ends too early.
    pub offset: usize,
}

/// Whether a byte is a blank.
pub open spec fn is_blank(b: u8) -> bool {
    b == 32 || b == 9
}

/// The first offset from `pos` on at which no decimal digit stands.
pub open spec fn digits_end(s: Seq<u8>, pos: int) -> int
    decreases s.len() - pos,
{
    if 0 <= pos < s.len() && is_digit(s[pos]) {
        digits_end(s, pos + 1)
    } else {
        pos
    }
}

/// Whether a number starts at `pos`: a digit, or a minus sign and a digit.
pub open spec fn starts_number(s: Seq<u8>, pos: int) -> bool {
    0 <= pos < s.len() && (is_digit(s[pos]) || (s[pos] == 45 && pos + 1 < s.len() && is_digit(
        s[pos + 1],
    )))
}

/// Where the number that starts at `pos` ends.
pub open spec fn number_end(s: Seq<u8>, pos: int) -> int {
    let whole = digits_end(
        s,
        if s[pos] == 45 {
            pos + 1
        } else {
            pos
        },
    );
    let fraction = if whole < s.len() && s[whole] == 46 {
        digits_end(s, whole + 1)
    } else {
        whole
    };
    let marked = fraction < s.len() && (s[fraction] == 101 || s[fraction] == 69);
    let signed = marked && fraction + 1 < s.len() && (s[fraction + 1] == 43 || s[fraction + 1]
        == 45);
    let exponent = if signed {
        fraction + 2
    } else {
        fraction + 1
    };
    if marked && exponent < s.len() && is_digit(s[exponent]) {
        digits_end(s, exponent)
    } else {
        fraction
    }
}

/// Whether a text is a number: one starts at its first byte and ends with it.
pub open spec fn is_number(text: Seq<u8>) -> bool {
    starts_number(text, 0) && number_end(text, 0) == text.len()
}

/// The reference whose letter stands at `pos`: the letter and the digits that
/// follow it. It fails after the letter where no digit follows, and at the
/// letter where the digits write a row above 255.
pub open spec fn reference_at(s: Seq<u8>, pos: int) -> Result<(Expr, int), int> {
    let end = digits_end(s, pos + 1);
    if end == pos + 1 {
        Err(pos + 1)
    } else if decimal(s, pos + 1, end) > 255 {
        Err(pos)
    } else {
        Ok((Expr::Reference(Key::at(letter_position(s[pos]), decimal(s, pos + 1, end))), end))
    }
}

/// A summation or product of one term is that term.
pub open spec fn collapse(terms: Seq<(Expr, bool)>, product: bool) -> Expr {
    if terms.len() == 1 {
        terms[0].0
    } else if product {
        Expr::Product(terms)
    } else {
        Expr::Summation(terms)
    }
}

/// The value that starts at or after `pos`, with the offset after it, or the
/// offset at which the text fails.
pub open spec fn value_at(s: Seq<u8>, pos: int) -> Result<(Expr, int), int>
    decreases s.len() - pos, 0nat,
{
    if pos < 0 || pos >= s.len() {
        Err(pos)
    } else if is_blank(s[pos]) {
        value_at(s, pos + 1)
    } else if s[pos] == 40 {
        match summation_at(s, pos + 1) {
            Ok((inner, next)) => if next < s.len() && s[next] == 41 {
                Ok((inner, next + 1))
            } else {
                Err(next)
            },
            Err(offset) => Err(offset),
        }
    } else if starts_number(s, pos) {
        Ok((Expr::Value(s.subrange(pos, number_end(s, pos))), number_end(s, pos)))
    } else if is_letter(s[pos]) {
        reference_at(s, pos)
    } else {
        Err(pos)
    }
}

/// The product that starts at or after `pos`, with the offset of the first
/// byte after it that is no blank.
///
/// A value is never empty, so the test that the offset has moved on always
/// succeeds; it is written out to make plain that the grammar is well
/// founded.
pub open spec fn product_at(s: Seq<u8>, pos: int) -> Result<(Expr, int), int>
    decreases s.len() - pos, 2nat,
{
    match value_at(s, pos) {
        Ok((first, next)) => if pos < next <= s.len() {
            product_rest(s, next, seq![(first, false)])
        } else {
            Err(pos)
        },
        Err(offset) => Err(offset),
    }
}

/// What follows the first `terms` of a product, from `pos` on.
pub open spec fn product_rest(s: Seq<u8>, pos: int, terms: Seq<(Expr, bool)>) -> Result<
    (Expr, int),
    int,
>
    decreases s.len() - pos, 1nat,
{
    if 0 <= pos < s.len() && is_blank(s[pos]) {
        product_rest(s, pos + 1, terms)
    } else if 0 <= pos < s.len() && (s[pos] == 42 || s[pos] == 47) {
        match value_at(s, pos + 1) {
            Ok((term, next)) => if pos < next <= s.len() {
                product_rest(s, next, terms.push((term, s[pos] == 47)))
            } else {
                Err(pos)
            },
            Err(offset) => Err(offset),
        }
    } else {
        Ok((collapse(terms, true), pos))
    }
}

/// The summation that starts at or after `pos`, with the offset of the first
/// byte after it that is no blank.
pub open spec fn summation_at(s: Seq<u8>, pos: int) -> Result<(Expr, int), int>
    decreases s.len() - pos, 4nat,
{
    match product_at(s, pos) {
        Ok((first, next)) => if pos < next <= s.len() {
            summation_rest(s, next, seq![(first, false)])
        } else {
            Err(pos)
        },
        Err(offset) => Err(offset),
    }
}

/// What follows the first `terms` of a summation, from `pos` on.
pub open spec fn summation_rest(s: Seq<u8>, pos: int, terms: Seq<(Expr, bool)>) -> Result<
    (Expr, int),
    int,
>
    decreases s.len() - pos, 3nat,
{
    if 0 <= pos < s.len() && is_blank(s[pos]) {
        summation_rest(s, pos + 1, terms)
    } else if 0 <= pos < s.len() && (s[pos] == 43 || s[pos] == 45) {
        match product_at(s, pos + 1) {
            Ok((term, next)) => if pos < next <= s.len() {
                summation_rest(s, next, terms.push((term, s[pos] == 45)))
            } else {
                Err(pos)
            },
            Err(offset) => Err(offset),
        }
    } else {
        Ok((collapse(terms, false), pos))
    }
}

/// What a cell's text holds: no formula where it does not start with `=`, the
/// formula that follows the `=`, or the offset at which that formula fails.
/// Nothing but blanks may follow the formula.
pub open spec fn parse_cell(s: Seq<u8>) -> Result<Option<Expr>, int> {
    if s.len() > 0 && s[0] == 61 {
        match summation_at(s, 1) {
            Ok((formula, next)) => if next >= s.len() {
                Ok(Some(formula))
            } else {
                Err(next)
            },
            Err(offset) => Err(offset),
        }
    } else {
        Ok(None)
    }
}

/// Whether what a rule of the parser returned is what the grammar says.
pub open spec fn agrees(
    r: Result<(Formula, usize), ParseError>,
    m: Result<(Expr, int), int>,
) -> bool {
    match r {
        Ok((formula, next)) => m == Ok::<(Expr, int), int>((formula@, next as int)),
        Err(error) => m == Err::<(Expr, int), int>(error.offset as int),
    }
}

/// Whether what the parser returned for a cell is what the grammar says.
pub open spec fn parsed(
    r: Result<Option<Formula>, ParseError>,
    m: Result<Option<Expr>, int>,
) -> bool {
    match r {
        Ok(Some(formula)) => m == Ok::<Option<Expr>, int>(Some(formula@)),
        Ok(None) => m == Ok::<Option<Expr>, int>(None),
        Err(error) => m == Err::<Option<Expr>, int>(error.offset as int),
    }
}

/// A parser over the bytes of one cell's text.
pub struct FormulaParser<'a> {
    bytes: &'a [u8],
}

impl<'a> FormulaParser<'a> {
    /// The text that the parser reads.
    pub closed spec fn text(&self) -> Seq<u8> {
        self.bytes@
    }

    pub fn new(source: &'a str) -> (parser: Self)
        ensures
            parser.text() == source.spec_bytes(),
    {
        FormulaParser { bytes: source.as_bytes() }
    }

    /// The first offset from `pos` on at which no decimal digit stands.
    fn skip_digits(&self, pos: usize) -> (end: usize)
        requires
            pos <= self.text().len(),
        ensures
            end == digits_end(self.text(), pos as int),
            pos <= end <= self.text().len(),
            all_digits(self.text(), pos as int, end as int),
            pos < self.text().len() && is_digit(self.text()[pos as int]) ==> pos < end,
    {
        let mut end = pos;
        while end < self.bytes.len() && 48 <= self.bytes[end] && self.bytes[end] <= 57
            invariant
                pos <= end <= self.bytes@.len(),
                digits_end(self.bytes@, end as int) == digits_end(self.bytes@, pos as int),
                all_digits(self.bytes@, pos as int, end as int),
            decreases self.bytes@.len() - end,
        {
            end = end + 1;
        }
        end
    }

    /// Whether a decimal digit stands at `pos`.
    fn digit_at(&self, pos: usize) -> (r: bool)
        ensures
            r == (pos < self.text().len() && is_digit(self.text()[pos as int])),
    {
        pos < self.bytes.len() && 48 <= self.bytes[pos] && self.bytes[pos] <= 57
    }

    /// The number that starts at `pos`.
    fn parse_number(&self, pos: usize) -> (r: (Formula, usize))
        requires
            starts_number(self.text(), pos as int),
        ensures
            r.0@ == Expr::Value(self.text().subrange(pos as int, r.1 as int)),
            r.1 == number_end(self.text(), pos as int),
            pos < r.1 <= self.text().len(),
    {
        let start = if self.bytes[pos] == 45 {
            pos + 1
        } else {
            pos
        };
        let whole = self.skip_digits(start);
        let fraction = if whole < self.bytes.len() && self.bytes[whole] == 46 {
            self.skip_digits(whole + 1)
        } else {
            whole
        };
        let marked = fraction < self.bytes.len() && (self.bytes[fraction] == 101
            || self.bytes[fraction] == 69);
        let mut end = fraction;
        if marked {
            let signed = fraction + 1 < self.bytes.len() && (self.bytes[fraction + 1] == 43
                || self.bytes[fraction + 1] == 45);
            let exponent = if signed {
                fraction + 2
            } else {
                fraction + 1
            };
            if self.digit_at(exponent) {
                end = self.skip_digits(exponent);
            }
        }
        let text = slice_to_vec(slice_subrange(self.bytes, pos, end));
        (Formula::Value(text), end)
    }

    /// The reference whose letter stands at `pos`.
    fn parse_reference(&self, pos: usize, col: ColKey) -> (r: Result<(Formula, usize), ParseError>)
        requires
            pos < self.text().len(),
            is_letter(self.text()[pos as int]),
            col == ColKey::at(letter_position(self.text()[pos as int])),
        ensures
            agrees(r, reference_at(self.text(), pos as int)),
            r matches Ok((_, next)) ==> pos < next <= self.text().len(),
    {
        let len = self.bytes.len();
        let end = self.skip_digits(pos + 1);
        if end == pos + 1 {
            return Err(ParseError { offset: pos + 1 });
        }
        proof {
            ColKey::lemma_at(letter_position(self.bytes@[pos as int]));
        }
        match read_row(self.bytes, pos + 1, end) {
            Some(row) => Ok((Formula::Reference(Key::new(col, row)), end)),
            None => Err(ParseError { offset: pos }),
        }
    }

    /// Reads one value: a number, a reference, or an expression in
    /// parentheses.
    pub fn parse_value(&self, pos: usize) -> (r: Result<(Formula, usize), ParseError>)
        ensures
            agrees(r, value_at(self.text(), pos as int)),
            r matches Ok((_, next)) ==> pos < next <= self.text().len(),
        decreases self.text().len() - pos, 0nat,
    {
        let mut at = pos;
        while at < self.bytes.len() && (self.bytes[at] == 32 || self.bytes[at] == 9)
            invariant
                pos <= at,
                at <= self.bytes@.len() || at == pos,
                value_at(self.bytes@, at as int) == value_at(self.bytes@, pos as int),
            decreases self.bytes@.len() - at,
        {
            at = at + 1;
        }
        if at >= self.bytes.len() {
            return Err(ParseError { offset: at });
        }
        let b = self.bytes[at];
        if b == 40 {
            match self.parse_expression(at + 1) {
                Ok((inner, next)) => {
                    if next < self.bytes.len() && self.bytes[next] == 41 {
                        Ok((inner, next + 1))
                    } else {
                        Err(ParseError { offset: next })
                    }
                },
                Err(error) => Err(error),
            }
        } else if (48 <= b && b <= 57) || (b == 45 && self.digit_at(at + 1)) {
            let (number, next) = self.parse_number(at);
            Ok((number, next))
        } else {
            match ColKey::from_letter(b) {
                Some(col) => self.parse_reference(at, col),
                None => Err(ParseError { offset: at }),
            }
        }
    }

    /// Reads one product: values joined by `*` and `/`.
    pub fn parse_product(&self, pos: usize) -> (r: Result<(Formula, usize), ParseError>)
        ensures
            agrees(r, product_at(self.text(), pos as int)),
            r matches Ok((_, next)) ==> pos < next <= self.text().len(),
        decreases self.text().len() - pos, 2nat,
    {
        let (first, next) = match self.parse_value(pos) {
            Ok(found) => found,
            Err(error) => {
                return Err(error);
            },
        };
        let mut terms: Vec<(Formula, bool)> = Vec::new();
        terms.push((first, false));
        let mut at = next;
        assert(terms_view(terms@) =~= seq![(first@, false)]);
        loop
            invariant
                pos < at <= self.bytes@.len(),
                terms@.len() >= 1,
                product_rest(self.bytes@, at as int, terms_view(terms@)) == product_at(
                    self.bytes@,
                    pos as int,
                ),
            decreases self.bytes@.len() - at,
        {
            if at >= self.bytes.len() {
                return Ok((gather(terms, true), at));
            }
            let b = self.bytes[at];
            if b == 32 || b == 9 {
                at = at + 1;
            } else if b == 42 || b == 47 {
                let (term, next) = match self.parse_value(at + 1) {
                    Ok(found) => found,
                    Err(error) => {
                        return Err(error);
                    },
                };
                let ghost before = terms_view(terms@);
                terms.push((term, b == 47));
                assert(terms_view(terms@) =~= before.push((term@, b == 47)));
                at = next;
            } else {
                return Ok((gather(terms, true), at));
            }
        }
    }

    /// Reads one summation: products joined by `+` and `-`.
    pub fn parse_summation(&self, pos: usize) -> (r: Result<(Formula, usize), ParseError>)
        ensures
            agrees(r, summation_at(self.text(), pos as int)),
            r matches Ok((_, next)) ==> pos < next <= self.text().len(),
        decreases self.text().len() - pos, 4nat,
    {
        let (first, next) = match self.parse_product(pos) {
            Ok(found) => found,
            Err(error) => {
                return Err(error);
            },
        };
        let mut terms: Vec<(Formula, bool)> = Vec::new();
        terms.push((first, false));
        let mut at = next;
        assert(terms_view(terms@) =~= seq![(first@, false)]);
        loop
            invariant
                pos < at <= self.bytes@.len(),
                terms@.len() >= 1,
                summation_rest(self.bytes@, at as int, terms_view(terms@)) == summation_at(
                    self.bytes@,
                    pos as int,
                ),
            decreases self.bytes@.len() - at,
        {
            if at >= self.bytes.len() {
                return Ok((gather(terms, false), at));
            }
            let b = self.bytes[at];
            if b == 32 || b == 9 {
                at = at + 1;
            } else if b == 43 || b == 45 {
                let (term, next) = match self.parse_product(at + 1) {
                    Ok(found) => found,
                    Err(error) => {
                        return Err(error);
                    },
                };
                let ghost before = terms_view(terms@);
                terms.push((term, b == 45));
                assert(terms_view(terms@) =~= before.push((term@, b == 45)));
                at = next;
            } else {
                return Ok((gather(terms, false), at));
            }
        }
    }

    /// Reads one expression, which is a summation.
    pub fn parse_expression(&self, pos: usize) -> (r: Result<(Formula, usize), ParseError>)
        ensures
            agrees(r, summation_at(self.text(), pos as int)),
            r matches Ok((_, next)) ==> pos < next <= self.text().len(),
        decreases self.text().len() - pos, 5nat,
    {
        self.parse_summation(pos)
    }

    /// Reads the whole text of a cell.
    pub fn parse_cell(&self) -> (r: Result<Option<Formula>, ParseError>)
        ensures
            parsed(r, parse_cell(self.text())),
            r matches Ok(Some(formula)) ==> formula@.well_formed(),
    {
        proof {
            lemma_parse_well_formed(self.bytes@);
        }
        if self.bytes.len() == 0 || self.bytes[0] != 61 {
            return Ok(None);
        }
        match self.parse_expression(1) {
            Ok((formula, next)) => {
                if next >= self.bytes.len() {
                    Ok(Some(formula))
                } else {
                    Err(ParseError { offset: next })
                }
            },
            Err(error) => Err(error),
        }
    }
}

/// Makes the formula of the terms of a summation or product.
fn gather(terms: Vec<(Formula, bool)>, product: bool) -> (formula: Formula)
    requires
        terms@.len() >= 1,
    ensures
        formula@ == collapse(terms_view(terms@), product),
{
    let mut terms = terms;
    if terms.len() == 1 {
        let ghost before = terms@;
        match terms.pop() {
            Some(term) => {
                assert(term == before[0]);
                term.0
            },
            None => Formula::Value(Vec::new()),
        }
    } else if product {
        Formula::Product(terms)
    } else {
        Formula::Summation(terms)
    }
}

/// Reads the text of a cell: no formula, a formula, or a syntax error.
pub fn parse(source: &str) -> (r: Result<Option<Formula>, ParseError>)
    ensures
        parsed(r, parse_cell(source.spec_bytes())),
        r matches Ok(Some(formula)) ==> formula@.well_formed(),
{
    FormulaParser::new(source).parse_cell()
}

/// Whether what a rule of the grammar gives holds a well-formed formula and
/// has moved on from `pos` without leaving the text.
pub open spec fn sound(s: Seq<u8>, pos: int, m: Result<(Expr, int), int>) -> bool {
    m matches Ok((formula, next)) ==> formula.well_formed() && pos < next <= s.len()
}

/// The digits from `pos` on end at or after `pos`, inside the text, and no
/// digit follows them.
pub proof fn lemma_digits_end(s: Seq<u8>, pos: int)
    requires
        0 <= pos <= s.len(),
    ensures
        pos <= digits_end(s, pos) <= s.len(),
        all_digits(s, pos, digits_end(s, pos)),
        pos < s.len() && is_digit(s[pos]) ==> pos < digits_end(s, pos),
        no_digit_at(s, digits_end(s, pos)),
    decreases s.len() - pos,
{
    if pos < s.len() && is_digit(s[pos]) {
        lemma_digits_end(s, pos + 1);
    }
}

/// A number is not empty and ends inside the text, and alone it is a number
/// too.
pub proof fn lemma_number_end(s: Seq<u8>, pos: int)
    requires
        starts_number(s, pos),
    ensures
        pos < number_end(s, pos) <= s.len(),
        is_number(s.subrange(pos, number_end(s, pos))),
{
    let first = if s[pos] == 45 {
        pos + 1
    } else {
        pos
    };
    lemma_digits_end(s, first);
    let whole = digits_end(s, first);
    if whole < s.len() && s[whole] == 46 {
        lemma_digits_end(s, whole + 1);
    }
    let fraction = if whole < s.len() && s[whole] == 46 {
        digits_end(s, whole + 1)
    } else {
        whole
    };
    if fraction + 1 <= s.len() {
        lemma_digits_end(s, fraction + 1);
    }
    if fraction + 2 <= s.len() {
        lemma_digits_end(s, fraction + 2);
    }
    let end = number_end(s, pos);
    let part = s.subrange(pos, end);
    let n = part.len() as int;
    assert(stands_at(s, pos, part));
    assert(no_digit_at(s, pos + n));
    lemma_digits_stand(s, pos, part, first - pos);
    if whole + 1 <= end {
        lemma_digits_stand(s, pos, part, whole + 1 - pos);
    }
    if fraction + 1 <= end {
        lemma_digits_stand(s, pos, part, fraction + 1 - pos);
    }
    if fraction + 2 <= end {
        lemma_digits_stand(s, pos, part, fraction + 2 - pos);
    }
    assert(part[0] == s[pos]);
    if n > 1 {
        assert(part[1] == s[pos + 1]);
    }
    if whole < end {
        assert(part[whole - pos] == s[whole]);
    }
    if fraction < end {
        assert(part[fraction - pos] == s[fraction]);
    }
    if fraction + 1 < end {
        assert(part[fraction + 1 - pos] == s[fraction + 1]);
    }
    if fraction + 2 < end {
        assert(part[fraction + 2 - pos] == s[fraction + 2]);
    }
    assert(number_end(part, 0) == n);
}

/// Every rule of the grammar gives a well-formed formula and moves on
/// through the text. So the tests in the grammar that the offset has moved
/// on never fail.
pub proof fn lemma_value_sound(s: Seq<u8>, pos: int)
    ensures
        sound(s, pos, value_at(s, pos)),
    decreases s.len() - pos, 0nat,
{
    if pos < 0 || pos >= s.len() {
    } else if is_blank(s[pos]) {
        lemma_value_sound(s, pos + 1);
    } else if s[pos] == 40 {
        lemma_summation_sound(s, pos + 1);
    } else if starts_number(s, pos) {
        lemma_number_end(s, pos);
    } else if is_letter(s[pos]) {
        lemma_digits_end(s, pos + 1);
        let end = digits_end(s, pos + 1);
        if end > pos + 1 && decimal(s, pos + 1, end) <= 255 {
            assert(is_digit(s[pos + 1]));
            lemma_decimal_bounds(s, pos + 1, end);
            Key::lemma_at(letter_position(s[pos]), decimal(s, pos + 1, end));
        }
    }
}

/// The number that digits write is not negative.
proof fn lemma_decimal_bounds(s: Seq<u8>, from: int, to: int)
    requires
        0 <= from <= to <= s.len(),
        all_digits(s, from, to),
    ensures
        0 <= decimal(s, from, to),
    decreases to - from,
{
    if from < to {
        assert(is_digit(s[to - 1]));
        lemma_decimal_bounds(s, from, to - 1);
    }
}

/// The same of a product.
pub proof fn lemma_product_sound(s: Seq<u8>, pos: int)
    ensures
        sound(s, pos, product_at(s, pos)),
    decreases s.len() - pos, 2nat,
{
    lemma_value_sound(s, pos);
    match value_at(s, pos) {
        Ok((first, next)) => {
            lemma_product_rest_sound(s, next, seq![(first, false)]);
        },
        Err(_) => {},
    }
}

/// The same of what follows the first terms of a product.
proof fn lemma_product_rest_sound(s: Seq<u8>, pos: int, terms: Seq<(Expr, bool)>)
    requires
        0 <= pos <= s.len(),
        well_formed_terms(terms),
    ensures
        product_rest(s, pos, terms) matches Ok((formula, next)) ==> formula.well_formed() && pos
            <= next <= s.len(),
    decreases s.len() - pos, 1nat,
{
    if pos < s.len() && is_blank(s[pos]) {
        lemma_product_rest_sound(s, pos + 1, terms);
    } else if pos < s.len() && (s[pos] == 42 || s[pos] == 47) {
        lemma_value_sound(s, pos + 1);
        match value_at(s, pos + 1) {
            Ok((term, next)) => {
                let more = terms.push((term, s[pos] == 47));
                assert(well_formed_terms(more));
                lemma_product_rest_sound(s, next, more);
            },
            Err(_) => {},
        }
    } else {
        if terms.len() >= 2 {
            lemma_well_formed_terms(terms);
        }
    }
}

/// The same of a summation.
pub proof fn lemma_summation_sound(s: Seq<u8>, pos: int)
    ensures
        sound(s, pos, summation_at(s, pos)),
    decreases s.len() - pos, 4nat,
{
    lemma_product_sound(s, pos);
    match product_at(s, pos) {
        Ok((first, next)) => {
            lemma_summation_rest_sound(s, next, seq![(first, false)]);
        },
        Err(_) => {},
    }
}

/// The same of what follows the first terms of a summation.
proof fn lemma_summation_rest_sound(s: Seq<u8>, pos: int, terms: Seq<(Expr, bool)>)
    requires
        0 <= pos <= s.len(),
        well_formed_terms(terms),
    ensures
        summation_rest(s, pos, terms) matches Ok((formula, next)) ==> formula.well_formed() && pos
            <= next <= s.len(),
    decreases s.len() - pos, 3nat,
{
    if pos < s.len() && is_blank(s[pos]) {
        lemma_summation_rest_sound(s, pos + 1, terms);
    } else if pos < s.len() && (s[pos] == 43 || s[pos] == 45) {
        lemma_product_sound(s, pos + 1);
        match product_at(s, pos + 1) {
            Ok((term, next)) => {
                let more = terms.push((term, s[pos] == 45));
                assert(well_formed_terms(more));
                lemma_summation_rest_sound(s, next, more);
            },
            Err(_) => {},
        }
    } else {
        if terms.len() >= 2 {
            lemma_well_formed_terms(terms);
        }
    }
}

/// A formula that is read from a cell's text is well formed.
pub proof fn lemma_parse_well_formed(s: Seq<u8>)
    ensures
        parse_cell(s) matches Ok(Some(formula)) ==> formula.well_formed(),
{
    lemma_summation_sound(s, 1);
}

} // verus!
