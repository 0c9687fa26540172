//! One cell of the grid: its text, what the text holds, and the text that the
//! grid shows for it.

use crate::formula::{
    always_answers, arithmetic_of, Arithmetic, EvalError, Expr, Formula, Operation,
};
use crate::parser::{lemma_parse_well_formed, parse, parse_cell};
use std::collections::HashMap;
use vstd::prelude::*;
use vstd::string::StringExecFns;
use vstd::string::StringSliceAdditionalSpecFns;
use vstd::utf8::encode_utf8;

verus! {

/// What a cell with a syntax error shows.
pub open spec fn bad_formula() -> Seq<char> {
    "BAD FORMULA"@
}

/// What a cell shows whose formula cannot be evaluated, because a cell that it
/// refers to has no value or because it is part of a cycle.
pub open spec fn reference_error() -> Seq<char> {
    "Ref error"@
}

/// The mathematical form of a [`Cell`].
pub struct CellView {
    /// The text as it was typed.
    pub input: Seq<char>,
    /// The formula that the text holds, if it holds one.
    pub formula: Option<Expr>,
    /// Whether the text opens as a formula and does not follow the grammar.
    pub parse_error: bool,
    /// The text that the grid shows.
    pub display: Seq<char>,
}

/// The cell that a text makes. A text with a syntax error shows the error
/// marker, a text without a formula shows itself, and a formula shows nothing
/// until it is evaluated.
pub open spec fn fresh(input: Seq<char>) -> CellView {
    match parse_cell(encode_utf8(input)) {
        Ok(formula) => CellView {
            input,
            formula,
            parse_error: false,
            display: if formula is None {
                input
            } else {
                Seq::empty()
            },
        },
        Err(_) => CellView { input, formula: None, parse_error: true, display: bad_formula() },
    }
}

/// What the host's three functions guarantee.
#[verifier::reject_recursive_types(V)]
pub struct Rules<V> {
    /// What the arithmetic and the reading of numbers guarantee.
    pub arithmetic: Arithmetic<V>,
    /// What the writing of numbers guarantees: whether writing the number may
    /// give the text.
    pub show: spec_fn(V, Seq<char>) -> bool,
}

impl<V> Rules<V> {
    /// Writing the number `v` may give `text`.
    pub open spec fn shows(self, v: V, text: Seq<char>) -> bool {
        (self.show)(v, text)
    }

    /// Each of the three functions answers the same to the same question.
    pub open spec fn functional(self) -> bool {
        &&& self.arithmetic.functional()
        &&& forall|v: V, a: Seq<char>, b: Seq<char>| self.shows(v, a) && self.shows(v, b) ==> a == b
    }
}

/// The guarantees of three given functions.
pub open spec fn rules_of<
    V,
    C: Fn(Operation<V>) -> V,
    N: Fn(&[u8]) -> Option<V>,
    S: Fn(V) -> String,
>(calc: C, number: N, show: S) -> Rules<V> {
    Rules {
        arithmetic: arithmetic_of(calc, number),
        show: |v: V, text: Seq<char>|
            exists|s: String| s@ == text && #[trigger] show.ensures((v,), s),
    }
}

/// The three functions accept every question.
pub open spec fn host_answers<
    V,
    C: Fn(Operation<V>) -> V,
    N: Fn(&[u8]) -> Option<V>,
    S: Fn(V) -> String,
>(calc: C, number: N, show: S) -> bool {
    &&& always_answers(calc, number)
    &&& forall|v: V| show.requires((v,))
}

/// What evaluating a cell against known values gives, and what the cell shows
/// afterwards.
///
/// A cell with a syntax error has the value that the arithmetic gives for
/// [`Operation::Nan`]. A formula has a value exactly when it is ready, and
/// then shows that value. Any other text has the value that reading it as a
/// number gives, if it gives one. Only an evaluated formula changes what the
/// cell shows.
pub open spec fn outcome<V>(
    before: CellView,
    after: CellView,
    values: Map<u16, V>,
    rules: Rules<V>,
    r: Result<Option<V>, EvalError>,
) -> bool {
    &&& after.input == before.input
    &&& after.formula == before.formula
    &&& after.parse_error == before.parse_error
    &&& if before.parse_error {
        &&& after.display == before.display
        &&& r matches Ok(Some(v))
        &&& rules.arithmetic.calculates(Operation::Nan, v)
    } else {
        match before.formula {
            Some(formula) => if formula.ready(values.dom()) {
                &&& r matches Ok(Some(v))
                &&& formula.evaluates(values, rules.arithmetic, v)
                &&& rules.shows(v, after.display)
            } else {
                &&& r == Err::<Option<V>, EvalError>(EvalError::Dependency)
                &&& after.display == before.display
            },
            None => {
                &&& after.display == before.display
                &&& r matches Ok(read)
                &&& rules.arithmetic.reads(encode_utf8(before.input), read)
            },
        }
    }
}

/// One cell of the grid.
#[derive(Debug)]
pub struct Cell {
    input: String,
    formula: Option<Formula>,
    parse_error: bool,
    display: String,
}

impl View for Cell {
    type V = CellView;

    closed spec fn view(&self) -> CellView {
        CellView {
            input: self.input@,
            formula: match self.formula {
                Some(formula) => Some(formula@),
                None => None,
            },
            parse_error: self.parse_error,
            display: self.display@,
        }
    }
}

impl Cell {
    /// The formula and the error flag are those of the text, and a cell
    /// without a formula shows what its text makes it show.
    #[verifier::type_invariant]
    spec fn consistent(&self) -> bool {
        let made = fresh(self.input@);
        &&& self@.formula == made.formula
        &&& self.parse_error == made.parse_error
        &&& self.formula is None ==> self.display@ == made.display
    }

    /// The cell that a text makes.
    pub fn new(input: &str) -> (cell: Cell)
        ensures
            cell@ == fresh(input@),
    {
        Cell::make(String::from_str(input))
    }

    fn make(input: String) -> (cell: Cell)
        ensures
            cell@ == fresh(input@),
    {
        match parse(input.as_str()) {
            Ok(Some(formula)) => Cell {
                input,
                formula: Some(formula),
                parse_error: false,
                display: String::new(),
            },
            Ok(None) => {
                let display = input.clone();
                Cell { input, formula: None, parse_error: false, display }
            },
            Err(_) => Cell {
                input,
                formula: None,
                parse_error: true,
                display: String::from_str("BAD FORMULA"),
            },
        }
    }

    /// Replaces the cell's text.
    pub fn update(&mut self, input: String)
        ensures
            final(self)@ == fresh(input@),
    {
        *self = Cell::make(input);
    }

    /// Evaluates the cell against the values that are known.
    pub fn try_eval<
        V: Copy,
        C: Fn(Operation<V>) -> V,
        N: Fn(&[u8]) -> Option<V>,
        S: Fn(V) -> String,
    >(&mut self, values: &HashMap<u16, V>, calc: &C, number: &N, show: &S) -> (r: Result<
        Option<V>,
        EvalError,
    >)
        requires
            host_answers(*calc, *number, *show),
        ensures
            outcome(old(self)@, final(self)@, values@, rules_of(*calc, *number, *show), r),
    {
        proof {
            use_type_invariant(&*self);
        }
        if self.parse_error {
            Ok(Some(calc(Operation::Nan)))
        } else if let Some(formula) = &self.formula {
            match formula.eval(values, calc, number) {
                Ok(value) => {
                    let display = show(value);
                    assert(rules_of(*calc, *number, *show).shows(value, display@)) by {
                        assert(display@ == display@ && show.ensures((value,), display));
                    }
                    self.display = display;
                    Ok(Some(value))
                },
                Err(error) => Err(error),
            }
        } else {
            let bytes = self.input.as_str().as_bytes();
            let read = number(bytes);
            assert(arithmetic_of(*calc, *number).reads(encode_utf8(self.input@), read)) by {
                assert(bytes@ == encode_utf8(self.input@) && number.ensures((bytes,), read));
            }
            Ok(read)
        }
    }

    /// Makes the cell show that its formula cannot be evaluated. A cell
    /// without a formula is left as it is.
    pub fn set_reference_error(&mut self)
        ensures
            final(self)@ == (if old(self)@.formula is Some {
                CellView { display: reference_error(), ..old(self)@ }
            } else {
                old(self)@
            }),
    {
        proof {
            use_type_invariant(&*self);
        }
        if self.formula.is_some() {
            self.display = String::from_str("Ref error");
        }
    }

    /// The text as it was typed.
    pub fn input(&self) -> (input: &String)
        ensures
            input@ == self@.input,
    {
        &self.input
    }

    /// The text that the grid shows.
    pub fn display(&self) -> (display: &String)
        ensures
            display@ == self@.display,
    {
        &self.display
    }

    /// Whether the text opens as a formula and does not follow the grammar.
    pub fn parse_error(&self) -> (flag: bool)
        ensures
            flag == self@.parse_error,
    {
        self.parse_error
    }

    /// The formula that the text holds, if it holds one. It is well formed.
    pub fn formula(&self) -> (formula: Option<&Formula>)
        ensures
            match formula {
                Some(formula) => self@.formula == Some(formula@) && formula@.well_formed(),
                None => self@.formula is None,
            },
    {
        proof {
            use_type_invariant(self);
            lemma_parse_well_formed(encode_utf8(self.input@));
        }
        self.formula.as_ref()
    }

    /// The text for a field that is not being edited: what the cell shows,
    /// or the text as it was typed where the cell shows nothing.
    pub fn label(&self) -> (label: &String)
        ensures
            label@ == (if self@.display.len() > 0 {
                self@.display
            } else {
                self@.input
            }),
    {
        if self.display.as_str().unicode_len() > 0 {
            &self.display
        } else {
            &self.input
        }
    }

    /// States what holds of every cell: it is what its text makes it, but for
    /// what a formula shows, and its formula is well formed.
    pub fn consistency(&self)
        ensures
            self@.formula == fresh(self@.input).formula,
            self@.parse_error == fresh(self@.input).parse_error,
            self@.formula is None ==> self@ == fresh(self@.input),
            self@.parse_error ==> self@.formula is None && self@.display == bad_formula(),
            self@.formula matches Some(formula) ==> formula.well_formed(),
    {
        proof {
            use_type_invariant(self);
            lemma_parse_well_formed(encode_utf8(self.input@));
        }
    }
}

impl Default for Cell {
    /// A cell without text.
    fn default() -> (cell: Cell)
        ensures
            cell@ == fresh(Seq::empty()),
            cell@.input.len() == 0,
            cell@.display.len() == 0,
            !cell@.parse_error,
            cell@.formula is None,
    {
        let cell = Cell::make(String::new());
        proof {
            assert(encode_utf8(Seq::<char>::empty()).len() == 0) by {
                reveal_with_fuel(encode_utf8, 1);
            }
        }
        cell
    }
}

} // verus!
