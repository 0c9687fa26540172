//! Formulas: the expression tree, what it means to evaluate one, and the
//! evaluator.
//!
//! The library never looks inside a number. The host supplies the number type
//! `V` and the functions on it: one for the arithmetic and one that reads a
//! number from text. Contracts speak of these through [`Arithmetic`], the
//! relations that the two functions guarantee, so that they hold of whatever
//! numbers the host computes with.

use crate::key::Key;
use crate::parser::is_number;
use std::collections::HashMap;
use vstd::prelude::*;

verus! {

/// Why a formula has no value yet.
#[derive(Clone, Copy, Debug, PartialEq, Eq, Structural)]
pub enum EvalError {
    /// The formula refers to a cell whose value is not known.
    Dependency,
}

/// One request to the host's arithmetic.
#[derive(Debug, PartialEq)]
pub enum Operation<V> {
    /// The number with which a summation starts.
    Zero,
    /// The number with which a product starts.
    One,
    /// The number that stands for what is no number: a formula with a syntax
    /// error, or a number that cannot be read.
    Nan,
    /// The sum of the first and the second number.
    Add(V, V),
    /// The first number less the second.
    Sub(V, V),
    /// The product of the first and the second number.
    Mul(V, V),
    /// The first number divided by the second.
    Div(V, V),
}

/// A parsed formula.
#[derive(Debug, PartialEq)]
pub enum Formula {
    /// A number, held as the text that writes it.
    Value(Vec<u8>),
    /// The value of another cell.
    Reference(Key),
    /// Terms to add up from zero, left to right; a term whose flag is set is
    /// subtracted.
    Summation(Vec<(Formula, bool)>),
    /// Terms to multiply up from one, left to right; the accumulated product
    /// is divided by a term whose flag is set.
    Product(Vec<(Formula, bool)>),
}

/// The mathematical form of a [`Formula`].
pub enum Expr {
    /// A number, as the text that writes it.
    Value(Seq<u8>),
    /// The value of another cell.
    Reference(Key),
    /// Terms to add up; a term whose flag is set is subtracted.
    Summation(Seq<(Expr, bool)>),
    /// Terms to multiply up; a term whose flag is set divides.
    Product(Seq<(Expr, bool)>),
}

/// What the host's arithmetic and its reading of numbers guarantee, as
/// relations between what the two functions are given and what they may
/// return.
#[verifier::reject_recursive_types(V)]
pub struct Arithmetic<V> {
    /// Whether the arithmetic may answer the number to the request.
    pub calc: spec_fn(Operation<V>, V) -> bool,
    /// Whether reading the text may give the number, or give none.
    pub number: spec_fn(Seq<u8>, Option<V>) -> bool,
}

impl<V> Arithmetic<V> {
    /// The arithmetic may answer `r` to the request `op`.
    pub open spec fn calculates(self, op: Operation<V>, r: V) -> bool {
        (self.calc)(op, r)
    }

    /// Reading `text` as a number may give `r`.
    pub open spec fn reads(self, text: Seq<u8>, r: Option<V>) -> bool {
        (self.number)(text, r)
    }

    /// Both functions answer the same to the same question.
    pub open spec fn functional(self) -> bool {
        &&& forall|op: Operation<V>, a: V, b: V|
            self.calculates(op, a) && self.calculates(op, b) ==> a == b
        &&& forall|text: Seq<u8>, a: Option<V>, b: Option<V>|
            self.reads(text, a) && self.reads(text, b) ==> a == b
    }
}

/// The guarantees of a given arithmetic and a given reading of numbers.
pub open spec fn arithmetic_of<V, C: Fn(Operation<V>) -> V, N: Fn(&[u8]) -> Option<V>>(
    calc: C,
    number: N,
) -> Arithmetic<V> {
    Arithmetic {
        calc: |op: Operation<V>, r: V| calc.ensures((op,), r),
        number: |text: Seq<u8>, r: Option<V>|
            exists|s: &[u8]| s@ == text && #[trigger] number.ensures((s,), r),
    }
}

/// The two functions accept every question.
pub open spec fn always_answers<V, C: Fn(Operation<V>) -> V, N: Fn(&[u8]) -> Option<V>>(
    calc: C,
    number: N,
) -> bool {
    &&& forall|op: Operation<V>| calc.requires((op,))
    &&& forall|s: &[u8]| number.requires((s,))
}

/// The mathematical form of a list of terms.
pub open spec fn terms_view(terms: Seq<(Formula, bool)>) -> Seq<(Expr, bool)>
    decreases terms,
{
    Seq::new(
        terms.len(),
        |i: int|
            if 0 <= i < terms.len() {
                (terms[i].0.view(), terms[i].1)
            } else {
                arbitrary()
            },
    )
}

impl View for Formula {
    type V = Expr;

    open spec fn view(&self) -> Expr
        decreases self,
    {
        match self {
            Formula::Value(text) => Expr::Value(text@),
            Formula::Reference(key) => Expr::Reference(*key),
            Formula::Summation(terms) => Expr::Summation(terms_view(terms@)),
            Formula::Product(terms) => Expr::Product(terms_view(terms@)),
        }
    }
}

/// The request that one step of an accumulation makes: the accumulated
/// number `acc`, the next term's value `x`, whether the terms are those of a
/// product, and the term's flag.
pub open spec fn step<V>(product: bool, flag: bool, acc: V, x: V) -> Operation<V> {
    if product {
        if flag {
            Operation::Div(acc, x)
        } else {
            Operation::Mul(acc, x)
        }
    } else {
        if flag {
            Operation::Sub(acc, x)
        } else {
            Operation::Add(acc, x)
        }
    }
}

/// The request with which an accumulation starts.
pub open spec fn start<V>(product: bool) -> Operation<V> {
    if product {
        Operation::One
    } else {
        Operation::Zero
    }
}

impl Expr {
    /// Whether every cell that the formula refers to is among `known`.
    pub open spec fn ready(self, known: Set<u16>) -> bool
        decreases self,
    {
        match self {
            Expr::Value(_) => true,
            Expr::Reference(key) => known.contains(key.spec_code()),
            Expr::Summation(terms) => forall|i: int|
                0 <= i < terms.len() ==> (#[trigger] terms[i]).0.ready(known),
            Expr::Product(terms) => forall|i: int|
                0 <= i < terms.len() ==> (#[trigger] terms[i]).0.ready(known),
        }
    }

    /// Whether the formula has the form that reading gives it: a number is
    /// written as the grammar asks, a reference has an address of the grid,
    /// and a summation or product has two terms or more, the first of which
    /// is neither subtracted nor divides.
    pub open spec fn well_formed(self) -> bool
        decreases self,
    {
        match self {
            Expr::Value(text) => is_number(text),
            Expr::Reference(key) => 0 <= key.column() < 26 && 0 <= key.line() < 256,
            Expr::Summation(terms) => terms.len() >= 2 && !terms[0].1 && forall|i: int|
                0 <= i < terms.len() ==> (#[trigger] terms[i]).0.well_formed(),
            Expr::Product(terms) => terms.len() >= 2 && !terms[0].1 && forall|i: int|
                0 <= i < terms.len() ==> (#[trigger] terms[i]).0.well_formed(),
        }
    }

    /// Whether the formula refers to the cell with the code `cell`.
    pub open spec fn mentions(self, cell: u16) -> bool
        decreases self,
    {
        match self {
            Expr::Value(_) => false,
            Expr::Reference(key) => key.spec_code() == cell,
            Expr::Summation(terms) => exists|i: int|
                0 <= i < terms.len() && (#[trigger] terms[i]).0.mentions(cell),
            Expr::Product(terms) => exists|i: int|
                0 <= i < terms.len() && (#[trigger] terms[i]).0.mentions(cell),
        }
    }

    /// Whether `r` is a value of the formula, given the values of cells and
    /// what the host's functions guarantee.
    ///
    /// A number evaluates to what reading its text gives, or to what the
    /// arithmetic answers to [`Operation::Nan`] where the text cannot be read.
    /// A reference evaluates to the value of its cell. A summation or product
    /// accumulates its terms from left to right.
    pub open spec fn evaluates<V>(self, values: Map<u16, V>, rules: Arithmetic<V>, r: V) -> bool
        decreases self, 0nat,
    {
        match self {
            Expr::Value(text) => rules.reads(text, Some(r)) || (rules.reads(text, None)
                && rules.calculates(Operation::Nan, r)),
            Expr::Reference(key) => values.contains_key(key.spec_code()) && values[key.spec_code()]
                == r,
            Expr::Summation(terms) => accumulates(terms, terms.len(), false, values, rules, r),
            Expr::Product(terms) => accumulates(terms, terms.len(), true, values, rules, r),
        }
    }
}

/// Whether `acc` is what accumulating the first `n` of the terms may give.
pub open spec fn accumulates<V>(
    terms: Seq<(Expr, bool)>,
    n: nat,
    product: bool,
    values: Map<u16, V>,
    rules: Arithmetic<V>,
    acc: V,
) -> bool
    decreases terms, n,
{
    if n == 0 {
        rules.calculates(start(product), acc)
    } else if n > terms.len() {
        false
    } else {
        exists|before: V, x: V|
            accumulates(terms, (n - 1) as nat, product, values, rules, before)
                && terms[n - 1].0.evaluates(values, rules, x) && #[trigger] rules.calculates(
                step(product, terms[n - 1].1, before, x),
                acc,
            )
    }
}

/// Whether every one of the terms is ready.
pub open spec fn all_ready(terms: Seq<(Expr, bool)>, known: Set<u16>) -> bool {
    forall|i: int| 0 <= i < terms.len() ==> (#[trigger] terms[i]).0.ready(known)
}

/// A summation or product is ready exactly when all its terms are.
pub proof fn lemma_ready_terms(terms: Seq<(Expr, bool)>, known: Set<u16>)
    ensures
        Expr::Summation(terms).ready(known) == all_ready(terms, known),
        Expr::Product(terms).ready(known) == all_ready(terms, known),
{
    let s = Expr::Summation(terms);
    assert(s.ready(known) == (forall|i: int|
        0 <= i < s->Summation_0.len() ==> (#[trigger] s->Summation_0[i]).0.ready(known)));
    let p = Expr::Product(terms);
    assert(p.ready(known) == (forall|i: int|
        0 <= i < p->Product_0.len() ==> (#[trigger] p->Product_0[i]).0.ready(known)));
}

/// Whether the terms are those of a well-formed summation or product, but
/// that there may be only one of them.
pub open spec fn well_formed_terms(terms: Seq<(Expr, bool)>) -> bool {
    &&& terms.len() >= 1
    &&& !terms[0].1
    &&& forall|i: int| 0 <= i < terms.len() ==> (#[trigger] terms[i]).0.well_formed()
}

/// A summation or product is well formed exactly when it has two or more
/// terms and they are well formed.
pub proof fn lemma_well_formed_terms(terms: Seq<(Expr, bool)>)
    ensures
        Expr::Summation(terms).well_formed() == (well_formed_terms(terms) && terms.len() >= 2),
        Expr::Product(terms).well_formed() == (well_formed_terms(terms) && terms.len() >= 2),
{
    let s = Expr::Summation(terms);
    assert(s.well_formed() == (s->Summation_0.len() >= 2 && !s->Summation_0[0].1 && forall|i: int|
        0 <= i < s->Summation_0.len() ==> (#[trigger] s->Summation_0[i]).0.well_formed()));
    let p = Expr::Product(terms);
    assert(p.well_formed() == (p->Product_0.len() >= 2 && !p->Product_0[0].1 && forall|i: int|
        0 <= i < p->Product_0.len() ==> (#[trigger] p->Product_0[i]).0.well_formed()));
}

/// Whether one of the terms refers to the cell with the code `cell`.
pub open spec fn any_mentions(terms: Seq<(Expr, bool)>, cell: u16) -> bool {
    exists|i: int| 0 <= i < terms.len() && (#[trigger] terms[i]).0.mentions(cell)
}

/// A summation or product refers to a cell exactly when one of its terms
/// does.
pub proof fn lemma_mentions_terms(terms: Seq<(Expr, bool)>, cell: u16)
    ensures
        Expr::Summation(terms).mentions(cell) == any_mentions(terms, cell),
        Expr::Product(terms).mentions(cell) == any_mentions(terms, cell),
{
    let s = Expr::Summation(terms);
    assert(s.mentions(cell) == (exists|i: int|
        0 <= i < s->Summation_0.len() && (#[trigger] s->Summation_0[i]).0.mentions(cell)));
    let p = Expr::Product(terms);
    assert(p.mentions(cell) == (exists|i: int|
        0 <= i < p->Product_0.len() && (#[trigger] p->Product_0[i]).0.mentions(cell)));
}

/// A formula is ready exactly when every cell that it refers to is known.
pub proof fn lemma_ready_mentions(e: Expr, known: Set<u16>)
    ensures
        e.ready(known) <==> forall|k: u16| e.mentions(k) ==> known.contains(k),
    decreases e,
{
    match e {
        Expr::Value(_) => {},
        Expr::Reference(key) => {
            assert(e.mentions(key.spec_code()));
        },
        Expr::Summation(terms) => {
            lemma_terms_ready_mentions(e, terms, known);
        },
        Expr::Product(terms) => {
            lemma_terms_ready_mentions(e, terms, known);
        },
    }
}

/// The same of a summation or product, given it of each term.
proof fn lemma_terms_ready_mentions(e: Expr, terms: Seq<(Expr, bool)>, known: Set<u16>)
    requires
        e == Expr::Summation(terms) || e == Expr::Product(terms),
    ensures
        e.ready(known) <==> forall|k: u16| e.mentions(k) ==> known.contains(k),
    decreases e, 0nat,
{
    lemma_ready_terms(terms, known);
    assert forall|i: int| 0 <= i < terms.len() implies (terms[i].0.ready(known) <==> forall|k: u16|
        terms[i].0.mentions(k) ==> known.contains(k)) by {
        lemma_ready_mentions(terms[i].0, known);
    }
    if e.ready(known) {
        assert forall|k: u16| e.mentions(k) implies known.contains(k) by {
            lemma_mentions_terms(terms, k);
            let i = choose|i: int| 0 <= i < terms.len() && (#[trigger] terms[i]).0.mentions(k);
            assert(terms[i].0.ready(known));
        }
    }
    if forall|k: u16| e.mentions(k) ==> known.contains(k) {
        assert forall|i: int| 0 <= i < terms.len() implies (#[trigger] terms[i]).0.ready(known) by {
            assert forall|k: u16| terms[i].0.mentions(k) implies known.contains(k) by {
                lemma_mentions_terms(terms, k);
                assert(e.mentions(k));
            }
        }
    }
}

/// Whether two maps give the same value to every cell that the formula refers
/// to.
pub open spec fn agree_on<V>(e: Expr, a: Map<u16, V>, b: Map<u16, V>) -> bool {
    forall|k: u16| #[trigger]
        e.mentions(k) ==> (a.contains_key(k) <==> b.contains_key(k)) && (a.contains_key(k) ==> a[k]
            == b[k])
}

/// A formula's values depend only on the values of the cells that it refers
/// to.
pub proof fn lemma_evaluates_agree<V>(
    e: Expr,
    a: Map<u16, V>,
    b: Map<u16, V>,
    rules: Arithmetic<V>,
    r: V,
)
    requires
        agree_on(e, a, b),
        e.evaluates(a, rules, r),
    ensures
        e.evaluates(b, rules, r),
    decreases e, 0nat,
{
    match e {
        Expr::Value(_) => {},
        Expr::Reference(key) => {
            assert(e.mentions(key.spec_code()));
        },
        Expr::Summation(terms) => {
            lemma_terms_agree(e, terms, a, b);
            lemma_accumulates_agree(terms, terms.len(), false, a, b, rules, r);
        },
        Expr::Product(terms) => {
            lemma_terms_agree(e, terms, a, b);
            lemma_accumulates_agree(terms, terms.len(), true, a, b, rules, r);
        },
    }
}

/// Maps that agree on a summation or product agree on each of its terms.
proof fn lemma_terms_agree<V>(e: Expr, terms: Seq<(Expr, bool)>, a: Map<u16, V>, b: Map<u16, V>)
    requires
        e == Expr::Summation(terms) || e == Expr::Product(terms),
        agree_on(e, a, b),
    ensures
        forall|i: int| 0 <= i < terms.len() ==> agree_on((#[trigger] terms[i]).0, a, b),
{
    assert forall|i: int| 0 <= i < terms.len() implies agree_on((#[trigger] terms[i]).0, a, b) by {
        assert forall|k: u16| #[trigger] terms[i].0.mentions(k) implies (a.contains_key(k)
            <==> b.contains_key(k)) && (a.contains_key(k) ==> a[k] == b[k]) by {
            lemma_mentions_terms(terms, k);
            assert(e.mentions(k));
        }
    }
}

/// The first `n` terms accumulate alike under maps that agree on every term.
proof fn lemma_accumulates_agree<V>(
    terms: Seq<(Expr, bool)>,
    n: nat,
    product: bool,
    a: Map<u16, V>,
    b: Map<u16, V>,
    rules: Arithmetic<V>,
    acc: V,
)
    requires
        forall|i: int| 0 <= i < terms.len() ==> agree_on((#[trigger] terms[i]).0, a, b),
        accumulates(terms, n, product, a, rules, acc),
    ensures
        accumulates(terms, n, product, b, rules, acc),
    decreases terms, n,
{
    if n > 0 {
        let (before, x) = choose|before: V, x: V|
            accumulates(terms, (n - 1) as nat, product, a, rules, before)
                && terms[n - 1].0.evaluates(a, rules, x) && #[trigger] rules.calculates(
                step(product, terms[n - 1].1, before, x),
                acc,
            );
        lemma_accumulates_agree(terms, (n - 1) as nat, product, a, b, rules, before);
        assert(agree_on(terms[n - 1].0, a, b));
        lemma_evaluates_agree(terms[n - 1].0, a, b, rules, x);
        assert(accumulates(terms, (n - 1) as nat, product, b, rules, before)
            && terms[n - 1].0.evaluates(b, rules, x) && rules.calculates(
            step(product, terms[n - 1].1, before, x),
            acc,
        ));
    }
}

/// Where the host's functions answer the same to the same question, a
/// formula has at most one value.
pub proof fn lemma_evaluates_functional<V>(
    e: Expr,
    values: Map<u16, V>,
    rules: Arithmetic<V>,
    r1: V,
    r2: V,
)
    requires
        rules.functional(),
        e.evaluates(values, rules, r1),
        e.evaluates(values, rules, r2),
    ensures
        r1 == r2,
    decreases e, 0nat,
{
    match e {
        Expr::Value(text) => {
            if rules.reads(text, Some(r1)) {
                if !rules.reads(text, Some(r2)) {
                    assert(rules.reads(text, None));
                    assert(Some(r1) == None::<V>);
                }
                assert(Some(r1) == Some(r2));
            } else {
                if rules.reads(text, Some(r2)) {
                    assert(Some(r2) == None::<V>);
                }
            }
        },
        Expr::Reference(_) => {},
        Expr::Summation(terms) => {
            lemma_accumulates_functional(terms, terms.len(), false, values, rules, r1, r2);
        },
        Expr::Product(terms) => {
            lemma_accumulates_functional(terms, terms.len(), true, values, rules, r1, r2);
        },
    }
}

/// The first `n` terms accumulate to at most one number.
proof fn lemma_accumulates_functional<V>(
    terms: Seq<(Expr, bool)>,
    n: nat,
    product: bool,
    values: Map<u16, V>,
    rules: Arithmetic<V>,
    r1: V,
    r2: V,
)
    requires
        rules.functional(),
        accumulates(terms, n, product, values, rules, r1),
        accumulates(terms, n, product, values, rules, r2),
    ensures
        r1 == r2,
    decreases terms, n,
{
    if n > 0 {
        let (b1, x1) = choose|before: V, x: V|
            accumulates(terms, (n - 1) as nat, product, values, rules, before)
                && terms[n - 1].0.evaluates(values, rules, x) && #[trigger] rules.calculates(
                step(product, terms[n - 1].1, before, x),
                r1,
            );
        let (b2, x2) = choose|before: V, x: V|
            accumulates(terms, (n - 1) as nat, product, values, rules, before)
                && terms[n - 1].0.evaluates(values, rules, x) && #[trigger] rules.calculates(
                step(product, terms[n - 1].1, before, x),
                r2,
            );
        lemma_accumulates_functional(terms, (n - 1) as nat, product, values, rules, b1, b2);
        lemma_evaluates_functional(terms[n - 1].0, values, rules, x1, x2);
    }
}

impl Formula {
    /// Evaluates the formula against the values that are known.
    ///
    /// Fails exactly when the formula refers to a cell without a known
    /// value, and otherwise returns a value of the formula.
    pub fn eval<V: Copy, C: Fn(Operation<V>) -> V, N: Fn(&[u8]) -> Option<V>>(
        &self,
        values: &HashMap<u16, V>,
        calc: &C,
        number: &N,
    ) -> (r: Result<V, EvalError>)
        requires
            always_answers(*calc, *number),
        ensures
            r is Ok <==> self@.ready(values@.dom()),
            r matches Ok(v) ==> self@.evaluates(values@, arithmetic_of(*calc, *number), v),
        decreases self,
    {
        broadcast use vstd::std_specs::hash::group_hash_axioms;

        match self {
            Formula::Value(text) => {
                let slice = text.as_slice();
                let read = number(slice);
                assert(arithmetic_of(*calc, *number).reads(text@, read)) by {
                    assert(slice@ == text@ && number.ensures((slice,), read));
                }
                match read {
                    Some(v) => Ok(v),
                    None => Ok(calc(Operation::Nan)),
                }
            },
            Formula::Reference(key) => {
                let code = key.code();
                match values.get(&code) {
                    Some(v) => Ok(*v),
                    None => Err(EvalError::Dependency),
                }
            },
            Formula::Summation(terms) => {
                proof {
                    lemma_ready_terms(terms_view(terms@), values@.dom());
                }
                accumulate(terms, false, values, calc, number)
            },
            Formula::Product(terms) => {
                proof {
                    lemma_ready_terms(terms_view(terms@), values@.dom());
                }
                accumulate(terms, true, values, calc, number)
            },
        }
    }
}

/// The request that one step of an accumulation makes.
fn next_step<V>(product: bool, flag: bool, acc: V, x: V) -> (op: Operation<V>)
    ensures
        op == step(product, flag, acc, x),
{
    if product {
        if flag {
            Operation::Div(acc, x)
        } else {
            Operation::Mul(acc, x)
        }
    } else {
        if flag {
            Operation::Sub(acc, x)
        } else {
            Operation::Add(acc, x)
        }
    }
}

/// Accumulates the terms of a summation or product from left to right, and
/// stops at the first term that has no value.
fn accumulate<V: Copy, C: Fn(Operation<V>) -> V, N: Fn(&[u8]) -> Option<V>>(
    terms: &Vec<(Formula, bool)>,
    product: bool,
    values: &HashMap<u16, V>,
    calc: &C,
    number: &N,
) -> (r: Result<V, EvalError>)
    requires
        always_answers(*calc, *number),
    ensures
        r is Ok <==> all_ready(terms_view(terms@), values@.dom()),
        r matches Ok(v) ==> accumulates(
            terms_view(terms@),
            terms@.len(),
            product,
            values@,
            arithmetic_of(*calc, *number),
            v,
        ),
    decreases terms,
{
    let ghost view = terms_view(terms@);
    let ghost rules = arithmetic_of(*calc, *number);
    let mut acc = calc(
        if product {
            Operation::One
        } else {
            Operation::Zero
        },
    );
    let mut i: usize = 0;
    while i < terms.len()
        invariant
            i <= terms.len(),
            view == terms_view(terms@),
            rules == arithmetic_of(*calc, *number),
            always_answers(*calc, *number),
            accumulates(view, i as nat, product, values@, rules, acc),
            forall|j: int| 0 <= j < i ==> (#[trigger] view[j]).0.ready(values@.dom()),
        decreases terms.len() - i,
    {
        let term = &terms[i];
        let x = match term.0.eval(values, calc, number) {
            Ok(x) => x,
            Err(e) => {
                assert(!view[i as int].0.ready(values@.dom()));
                return Err(e);
            },
        };
        let before = acc;
        acc = calc(next_step(product, term.1, acc, x));
        assert(accumulates(view, (i + 1) as nat, product, values@, rules, acc)) by {
            assert(view[i as int].0.evaluates(values@, rules, x));
            assert(rules.calculates(step(product, view[i as int].1, before, x), acc));
        }
        i = i + 1;
    }
    Ok(acc)
}

} // verus!
