//! The grid: a sparse map from cell addresses to cells, the values of the
//! cells, and the recalculation that brings the two in line.

use crate::cell::{fresh, host_answers, outcome, reference_error, rules_of, Cell, CellView, Rules};
use crate::formula::{
    agree_on, lemma_evaluates_agree, lemma_ready_mentions, EvalError, Operation,
};
use crate::key::Key;
use std::collections::HashMap;
use vstd::prelude::*;
use vstd::std_specs::iter::IteratorSpec;
use vstd::utf8::encode_utf8;

verus! {

/// The mathematical form of a [`CellData`]: the cells and the values, each
/// under the code of its address.
#[verifier::reject_recursive_types(V)]
pub struct SheetView<V> {
    /// The cells that were ever given a text.
    pub cells: Map<u16, CellView>,
    /// The values that the last recalculation found.
    pub values: Map<u16, V>,
}

/// Whether the cell under `cell` holds a formula that refers to the cell
/// under `target`.
pub open spec fn depends(cells: Map<u16, CellView>, cell: u16, target: u16) -> bool {
    &&& cells.contains_key(cell)
    &&& !cells[cell].parse_error
    &&& cells[cell].formula matches Some(formula)
    &&& formula.mentions(target)
}

/// Whether recalculation has left a cell's text and formula alone.
pub open spec fn kept(before: CellView, after: CellView) -> bool {
    &&& after.input == before.input
    &&& after.formula == before.formula
    &&& after.parse_error == before.parse_error
}

/// Whether `v` is a right value for a cell, and the cell shows what it
/// should.
pub open spec fn valued<V>(
    before: CellView,
    after: CellView,
    values: Map<u16, V>,
    v: V,
    rules: Rules<V>,
) -> bool {
    if before.parse_error {
        &&& after.display == before.display
        &&& rules.arithmetic.calculates(Operation::Nan, v)
    } else {
        match before.formula {
            Some(formula) => {
                &&& formula.ready(values.dom())
                &&& formula.evaluates(values, rules.arithmetic, v)
                &&& rules.shows(v, after.display)
            },
            None => {
                &&& after.display == before.display
                &&& rules.arithmetic.reads(encode_utf8(before.input), Some(v))
            },
        }
    }
}

/// Whether a cell is right to have no value, and shows what it should: a
/// text that is no number, which shows itself, or a formula that is not
/// ready, which shows the reference error.
pub open spec fn unvalued<V>(
    before: CellView,
    after: CellView,
    values: Map<u16, V>,
    rules: Rules<V>,
) -> bool {
    &&& !before.parse_error
    &&& match before.formula {
        Some(formula) => {
            &&& !formula.ready(values.dom())
            &&& after.display == reference_error()
        },
        None => {
            &&& after.display == before.display
            &&& rules.arithmetic.reads(encode_utf8(before.input), None)
        },
    }
}

/// Whether the cell under `k` is as a recalculation leaves it: with the text
/// and formula of before, and with a right value or rightly without one.
pub open spec fn settled<V>(
    before: CellView,
    after: CellView,
    values: Map<u16, V>,
    k: u16,
    rules: Rules<V>,
) -> bool {
    &&& kept(before, after)
    &&& if values.contains_key(k) {
        valued(before, after, values, values[k], rules)
    } else {
        unvalued(before, after, values, rules)
    }
}

/// Whether the values are well founded: `rank` gives every cell with a value
/// a number, and a formula with a value refers only to cells with a value
/// and a lower number.
pub open spec fn ordered(
    cells: Map<u16, CellView>,
    resolved: Set<u16>,
    rank: Map<u16, nat>,
) -> bool {
    forall|cell: u16, target: u16|
        resolved.contains(cell) && #[trigger] depends(cells, cell, target) ==> resolved.contains(
            target,
        ) && rank[target] < rank[cell]
}

/// Whether `post` is the grid `cells` after one full recalculation.
///
/// The cells are those of before, with their texts and formulas. Every cell
/// with a value has a right one, every cell without a value is right to have
/// none, and the values are well founded, so that no formula owes its value
/// to itself. Cells that cannot be given a value in this way, because they
/// refer to a cell without a value or lie on a cycle, show the reference
/// error.
pub open spec fn recalculated<V>(
    cells: Map<u16, CellView>,
    post: SheetView<V>,
    rules: Rules<V>,
) -> bool {
    &&& post.cells.dom() == cells.dom()
    &&& post.values.dom().subset_of(cells.dom())
    &&& forall|k: u16| #[trigger]
        cells.contains_key(k) ==> settled(cells[k], post.cells[k], post.values, k, rules)
    &&& exists|rank: Map<u16, nat>| ordered(cells, post.values.dom(), rank)
}

/// Whether a cell holds a formula.
spec fn holds_formula(cell: CellView) -> bool {
    !cell.parse_error && cell.formula is Some
}

/// Whether a cell holds a text that is neither a formula nor a number.
spec fn holds_text<V>(cell: CellView, rules: Rules<V>) -> bool {
    &&& !cell.parse_error
    &&& cell.formula is None
    &&& rules.arithmetic.reads(encode_utf8(cell.input), None)
}

/// Whether every value of `a` is a value of `b`.
spec fn extends<V>(a: Map<u16, V>, b: Map<u16, V>) -> bool {
    forall|k: u16| #[trigger] a.contains_key(k) ==> b.contains_key(k) && b[k] == a[k]
}

/// Whether `x` is among the first `n` of `list`.
spec fn among(list: Seq<u16>, n: int, x: u16) -> bool {
    exists|i: int| 0 <= i < n && i < list.len() && #[trigger] list[i] == x
}

/// Whether the cell under `k` has been dealt with: it has its value, or waits
/// in `waiting` for another sweep, or holds a text that has no value.
spec fn sorted_out<V>(
    cells: Map<u16, CellView>,
    values: Map<u16, V>,
    waiting: Seq<u16>,
    k: u16,
    rules: Rules<V>,
) -> bool {
    ||| values.contains_key(k)
    ||| among(waiting, waiting.len() as int, k)
    ||| holds_text(cells[k], rules)
}

/// Whether the cell under `k` holds a formula and has no value.
spec fn parked<V>(cells: Map<u16, CellView>, values: Map<u16, V>, k: u16) -> bool {
    &&& cells.contains_key(k)
    &&& !values.contains_key(k)
    &&& holds_formula(cells[k])
}

/// Whether a rank that orders the values stays below `clock`.
spec fn timed(
    cells: Map<u16, CellView>,
    resolved: Set<u16>,
    rank: Map<u16, nat>,
    clock: nat,
) -> bool {
    &&& ordered(cells, resolved, rank)
    &&& forall|k: u16| resolved.contains(k) ==> (#[trigger] rank[k]) < clock
}

/// What holds of a grid in the middle of a recalculation: every value that
/// was found is right, the values are well founded, and a cell without a
/// value shows what it showed before.
spec fn underway<V>(cells: Map<u16, CellView>, cur: SheetView<V>, rules: Rules<V>) -> bool {
    &&& cur.cells.dom() == cells.dom()
    &&& cur.values.dom().subset_of(cells.dom())
    &&& forall|k: u16| #[trigger]
        cells.contains_key(k) ==> so_far(cells[k], cur.cells[k], cur.values, k, rules)
    &&& exists|rank: Map<u16, nat>, clock: nat| timed(cells, cur.values.dom(), rank, clock)
}

/// Whether the cell under `k` is as the recalculation has left it so far: with
/// a right value, or without one and then still showing what it showed.
spec fn so_far<V>(
    before: CellView,
    after: CellView,
    values: Map<u16, V>,
    k: u16,
    rules: Rules<V>,
) -> bool {
    &&& kept(before, after)
    &&& if values.contains_key(k) {
        valued(before, after, values, values[k], rules)
    } else {
        after.display == before.display
    }
}

/// A right value stays right when more values become known.
proof fn lemma_valued_extends<V>(
    before: CellView,
    after: CellView,
    a: Map<u16, V>,
    b: Map<u16, V>,
    v: V,
    rules: Rules<V>,
)
    requires
        valued(before, after, a, v, rules),
        extends(a, b),
    ensures
        valued(before, after, b, v, rules),
{
    if !before.parse_error && before.formula is Some {
        let formula = before.formula->0;
        lemma_ready_mentions(formula, a.dom());
        lemma_ready_mentions(formula, b.dom());
        assert forall|k: u16| formula.mentions(k) implies b.dom().contains(k) by {
            assert(a.dom().contains(k));
            assert(a.contains_key(k));
        }
        assert(agree_on(formula, a, b)) by {
            assert forall|k: u16| #[trigger] formula.mentions(k) implies (a.contains_key(k)
                <==> b.contains_key(k)) && (a.contains_key(k) ==> a[k] == b[k]) by {
                assert(a.dom().contains(k));
                assert(a.contains_key(k));
            }
        }
        lemma_evaluates_agree(formula, a, b, rules.arithmetic, v);
    }
}

/// One more cell gets its value.
proof fn lemma_gain<V>(
    cells: Map<u16, CellView>,
    cur: SheetView<V>,
    next: SheetView<V>,
    rules: Rules<V>,
    key: u16,
    v: V,
)
    requires
        underway(cells, cur, rules),
        cells.contains_key(key),
        !cur.values.contains_key(key),
        next.cells.dom() == cur.cells.dom(),
        forall|k: u16| k != key && cells.contains_key(k) ==> next.cells[k] == cur.cells[k],
        outcome(cur.cells[key], next.cells[key], cur.values, rules, Ok(Some(v))),
        next.values == cur.values.insert(key, v),
    ensures
        underway(cells, next, rules),
{
    assert(extends(cur.values, next.values));
    assert forall|k: u16| #[trigger] cells.contains_key(k) implies so_far(
        cells[k],
        next.cells[k],
        next.values,
        k,
        rules,
    ) by {
        assert(so_far(cells[k], cur.cells[k], cur.values, k, rules));
        if k == key {
            let after = next.cells[key];
            assert(valued(cells[key], after, cur.values, v, rules));
            lemma_valued_extends(cells[key], after, cur.values, next.values, v, rules);
        } else {
            if cur.values.contains_key(k) {
                lemma_valued_extends(
                    cells[k],
                    cur.cells[k],
                    cur.values,
                    next.values,
                    cur.values[k],
                    rules,
                );
            }
        }
    }
    let (rank, clock) = choose|rank: Map<u16, nat>, clock: nat|
        timed(cells, cur.values.dom(), rank, clock);
    let rank2 = rank.insert(key, clock);
    let clock2 = clock + 1;
    assert(timed(cells, next.values.dom(), rank2, clock2 as nat)) by {
        assert forall|cell: u16, target: u16|
            next.values.dom().contains(cell) && #[trigger] depends(
                cells,
                cell,
                target,
            ) implies next.values.dom().contains(target) && rank2[target] < rank2[cell] by {
            if cell == key {
                let formula = cells[key].formula->0;
                assert(cur.cells[key].formula == Some(formula));
                lemma_ready_mentions(formula, cur.values.dom());
                assert(cur.values.dom().contains(target));
                assert(rank[target] < clock);
            } else {
                assert(cur.values.dom().contains(cell));
                assert(cur.values.dom().contains(target));
            }
        }
        assert forall|k: u16| next.values.dom().contains(k) implies (#[trigger] rank2[k])
            < clock2 by {
            if k != key {
                assert(cur.values.dom().contains(k));
                assert(rank[k] < clock);
            }
        }
    }
}

/// A cell is looked at and gets no value.
proof fn lemma_pass<V>(
    cells: Map<u16, CellView>,
    cur: SheetView<V>,
    next: SheetView<V>,
    rules: Rules<V>,
    key: u16,
    r: Result<Option<V>, EvalError>,
)
    requires
        underway(cells, cur, rules),
        cells.contains_key(key),
        !cur.values.contains_key(key),
        next.cells.dom() == cur.cells.dom(),
        forall|k: u16| k != key && cells.contains_key(k) ==> next.cells[k] == cur.cells[k],
        outcome(cur.cells[key], next.cells[key], cur.values, rules, r),
        !(r matches Ok(Some(_))),
        next.values == cur.values,
    ensures
        underway(cells, next, rules),
        r is Ok ==> holds_text(cells[key], rules),
        r is Err ==> holds_formula(cells[key]) && !cells[key].formula->0.ready(cur.values.dom()),
{
    assert(kept(cells[key], cur.cells[key]));
    assert(cur.cells[key].display == cells[key].display);
    assert forall|k: u16| #[trigger] cells.contains_key(k) implies so_far(
        cells[k],
        next.cells[k],
        next.values,
        k,
        rules,
    ) by {
        assert(so_far(cells[k], cur.cells[k], cur.values, k, rules));}
    let (rank, clock) = choose|rank: Map<u16, nat>, clock: nat|
        timed(cells, cur.values.dom(), rank, clock);
    assert(timed(cells, next.values.dom(), rank, clock));
}

/// Once every formula has its value, the grid is recalculated.
proof fn lemma_done<V>(cells: Map<u16, CellView>, post: SheetView<V>, rules: Rules<V>)
    requires
        underway(cells, post, rules),
        forall|k: u16|
            cells.contains_key(k) ==> post.values.contains_key(k) || holds_text(cells[k], rules),
    ensures
        recalculated(cells, post, rules),
{
    assert forall|k: u16| #[trigger] cells.contains_key(k) implies settled(
        cells[k],
        post.cells[k],
        post.values,
        k,
        rules,
    ) by {
        assert(so_far(cells[k], post.cells[k], post.values, k, rules));
    }
    let (rank, clock) = choose|rank: Map<u16, nat>, clock: nat|
        timed(cells, post.values.dom(), rank, clock);
    assert(ordered(cells, post.values.dom(), rank));
}

/// The cells of a grid and their values.
pub struct CellData<V> {
    cells: HashMap<u16, Cell>,
    values: HashMap<u16, V>,
}

impl<V> View for CellData<V> {
    type V = SheetView<V>;

    closed spec fn view(&self) -> SheetView<V> {
        SheetView { cells: self.cells@.map_values(|cell: Cell| cell@), values: self.values@ }
    }
}

impl<V: Copy> CellData<V> {
    /// A grid without cells.
    pub fn new() -> (data: Self)
        ensures
            data@.cells == Map::<u16, CellView>::empty(),
            data@.values == Map::<u16, V>::empty(),
    {
        let data = CellData { cells: HashMap::new(), values: HashMap::new() };
        assert(data@.cells =~= Map::<u16, CellView>::empty());
        data
    }

    /// Gives the cell at `key` a new text. The values stay as they are until
    /// the next recalculation.
    pub fn set(&mut self, key: Key, input: String)
        ensures
            final(self)@.cells == old(self)@.cells.insert(key.spec_code(), fresh(input@)),
            final(self)@.values == old(self)@.values,
    {
        broadcast use vstd::std_specs::hash::group_hash_axioms;

        let cell = Cell::new(input.as_str());
        self.cells.insert(key.code(), cell);
        assert(self@.cells =~= old(self)@.cells.insert(key.spec_code(), fresh(input@)));
    }

    /// The text, the shown text and the error flag of the cell at `key`. A
    /// cell that was never given a text has empty texts and no error.
    pub fn snapshot(&self, key: Key) -> (r: (String, String, bool))
        ensures
            self@.cells.contains_key(key.spec_code()) ==> {
                &&& r.0@ == self@.cells[key.spec_code()].input
                &&& r.1@ == self@.cells[key.spec_code()].display
                &&& r.2 == self@.cells[key.spec_code()].parse_error
            },
            !self@.cells.contains_key(key.spec_code()) ==> {
                &&& r.0@ == Seq::<char>::empty()
                &&& r.1@ == Seq::<char>::empty()
                &&& !r.2
            },
    {
        broadcast use vstd::std_specs::hash::group_hash_axioms;

        match self.cells.get(&key.code()) {
            Some(cell) => (cell.input().clone(), cell.display().clone(), cell.parse_error()),
            None => (String::new(), String::new(), false),
        }
    }

    /// The codes of all cells, each once, in no particular order.
    fn codes(&self) -> (codes: Vec<u16>)
        ensures
            codes@.no_duplicates(),
            forall|k: u16| codes@.contains(k) <==> self@.cells.contains_key(k),
    {
        broadcast use vstd::std_specs::hash::group_hash_axioms;

        let ghost all: Seq<u16> = self.cells.keys().remaining().unref();
        let mut codes: Vec<u16> = Vec::new();
        for key in it: self.cells.keys()
            invariant
                it.seq().unref() == all,
                codes@ == all.take(it.index()),
        {
            codes.push(*key);
        }
        assert(codes@ =~= all);
        assert(all.to_set() == self.cells@.dom());
        assert forall|k: u16| codes@.contains(k) <==> self@.cells.contains_key(k) by {
            assert(all.to_set().contains(k) <==> all.contains(k));
        }
        codes
    }

    /// Evaluates the cell under `key` against the values that are known, and
    /// records the value if there is one.
    fn settle<C: Fn(Operation<V>) -> V, N: Fn(&[u8]) -> Option<V>, S: Fn(V) -> String>(
        &mut self,
        key: u16,
        calc: &C,
        number: &N,
        show: &S,
    ) -> (r: Result<Option<V>, EvalError>)
        requires
            host_answers(*calc, *number, *show),
            old(self)@.cells.contains_key(key),
        ensures
            final(self)@.cells.dom() == old(self)@.cells.dom(),
            forall|k: u16|
                k != key && old(self)@.cells.contains_key(k) ==> final(self)@.cells[k] == old(
                    self,
                )@.cells[k],
            outcome(
                old(self)@.cells[key],
                final(self)@.cells[key],
                old(self)@.values,
                rules_of(*calc, *number, *show),
                r,
            ),
            final(self)@.values == (match r {
                Ok(Some(v)) => old(self)@.values.insert(key, v),
                _ => old(self)@.values,
            }),
    {
        broadcast use vstd::std_specs::hash::group_hash_axioms;

        match self.cells.remove(&key) {
            Some(cell) => {
                let mut cell = cell;
                let r = cell.try_eval(&self.values, calc, number, show);
                self.cells.insert(key, cell);
                assert(self@.cells =~= old(self)@.cells.insert(key, cell@));
                match r {
                    Ok(Some(v)) => {
                        self.values.insert(key, v);
                    },
                    _ => {},
                }
                r
            },
            None => Ok(None),
        }
    }

    /// Makes the cell under `key` show the reference error, if it holds a
    /// formula.
    fn mark(&mut self, key: u16)
        requires
            old(self)@.cells.contains_key(key),
        ensures
            final(self)@.values == old(self)@.values,
            final(self)@.cells == old(self)@.cells.insert(
                key,
                if old(self)@.cells[key].formula is Some {
                    CellView { display: reference_error(), ..old(self)@.cells[key] }
                } else {
                    old(self)@.cells[key]
                },
            ),
    {
        broadcast use vstd::std_specs::hash::group_hash_axioms;

        match self.cells.remove(&key) {
            Some(cell) => {
                let mut cell = cell;
                cell.set_reference_error();
                self.cells.insert(key, cell);
                assert(self@.cells =~= old(self)@.cells.insert(key, cell@));
            },
            None => {},
        }
    }

    /// Evaluates the cells of `queue` in turn, each against the values known
    /// by then, and returns those whose formula was not ready.
    fn sweep<C: Fn(Operation<V>) -> V, N: Fn(&[u8]) -> Option<V>, S: Fn(V) -> String>(
        &mut self,
        queue: &Vec<u16>,
        calc: &C,
        number: &N,
        show: &S,
        Ghost(cells): Ghost<Map<u16, CellView>>,
    ) -> (waiting: Vec<u16>)
        requires
            host_answers(*calc, *number, *show),
            underway(cells, old(self)@, rules_of(*calc, *number, *show)),
            queue@.no_duplicates(),
            forall|i: int|
                0 <= i < queue@.len() ==> cells.contains_key(#[trigger] queue@[i]) && !old(
                    self,
                )@.values.contains_key(queue@[i]),
        ensures
            underway(cells, final(self)@, rules_of(*calc, *number, *show)),
            extends(old(self)@.values, final(self)@.values),
            waiting@.no_duplicates(),
            waiting@.len() <= queue@.len(),
            forall|i: int|
                0 <= i < waiting@.len() ==> among(
                    queue@,
                    queue@.len() as int,
                    #[trigger] waiting@[i],
                ) && parked(cells, final(self)@.values, waiting@[i]),
            forall|i: int|
                0 <= i < queue@.len() ==> sorted_out(
                    cells,
                    final(self)@.values,
                    waiting@,
                    #[trigger] queue@[i],
                    rules_of(*calc, *number, *show),
                ),
            waiting@.len() == queue@.len() ==> {
                &&& final(self)@.values == old(self)@.values
                &&& forall|i: int|
                    0 <= i < waiting@.len() ==> !cells[#[trigger] waiting@[i]].formula->0.ready(
                        final(self)@.values.dom(),
                    )
            },
    {
        let ghost rules = rules_of(*calc, *number, *show);
        let ghost start = self@;
        let mut waiting: Vec<u16> = Vec::new();
        let mut j: usize = 0;
        while j < queue.len()
            invariant
                j <= queue@.len(),
                rules == rules_of(*calc, *number, *show),
                host_answers(*calc, *number, *show),
                queue@.no_duplicates(),
                forall|i: int|
                    0 <= i < queue@.len() ==> cells.contains_key(#[trigger] queue@[i])
                        && !start.values.contains_key(queue@[i]),
                underway(cells, self@, rules),
                extends(start.values, self@.values),
                forall|k: u16|
                    self@.values.contains_key(k) ==> start.values.contains_key(k) || among(
                        queue@,
                        j as int,
                        k,
                    ),
                waiting@.no_duplicates(),
                waiting@.len() <= j,
                forall|i: int|
                    0 <= i < waiting@.len() ==> among(queue@, j as int, #[trigger] waiting@[i])
                        && parked(cells, self@.values, waiting@[i]),
                forall|i: int|
                    0 <= i < j ==> sorted_out(
                        cells,
                        self@.values,
                        waiting@,
                        #[trigger] queue@[i],
                        rules,
                    ),
                waiting@.len() == j ==> {
                    &&& self@.values == start.values
                    &&& forall|i: int|
                        0 <= i < waiting@.len() ==> !cells[#[trigger] waiting@[i]].formula->0.ready(
                            self@.values.dom(),
                        )
                },
            decreases queue@.len() - j,
        {
            let key = queue[j];
            let ghost cur = self@;
            let ghost listed = waiting@;
            assert(!cur.values.contains_key(key)) by {
                if cur.values.contains_key(key) {
                    assert(among(queue@, j as int, key));
                }
            }
            assert(!among(listed, listed.len() as int, key)) by {
                if among(listed, listed.len() as int, key) {
                    let i = choose|i: int| 0 <= i < listed.len() && #[trigger] listed[i] == key;
                    assert(among(queue@, j as int, listed[i]));
                }
            }
            let r = self.settle(key, calc, number, show);
            match r {
                Ok(Some(v)) => {
                    proof {
                        lemma_gain(cells, cur, self@, rules, key, v);
                        assert(among(queue@, j as int + 1, key));
                    }
                },
                Ok(None) => {
                    proof {
                        lemma_pass(cells, cur, self@, rules, key, r);
                    }
                },
                Err(_) => {
                    proof {
                        lemma_pass(cells, cur, self@, rules, key, r);
                    }
                    waiting.push(key);
                    proof {
                        assert(waiting@[listed.len() as int] == key);
                        assert(among(queue@, j as int + 1, key));
                        assert(among(waiting@, waiting@.len() as int, key));
                    }
                },
            }
            proof {
                assert forall|i: int| 0 <= i < waiting@.len() implies among(
                    queue@,
                    j as int + 1,
                    #[trigger] waiting@[i],
                ) by {
                    if i < listed.len() {
                        assert(waiting@[i] == listed[i]);
                        assert(among(queue@, j as int, listed[i]));
                        let w = choose|w: int|
                            0 <= w < j && w < queue@.len() && #[trigger] queue@[w] == listed[i];
                        assert(queue@[w] == waiting@[i]);
                    }
                }
                assert forall|i: int| 0 <= i < j + 1 implies sorted_out(
                    cells,
                    self@.values,
                    waiting@,
                    #[trigger] queue@[i],
                    rules,
                ) by {
                    if i < j {
                        assert(sorted_out(cells, cur.values, listed, queue@[i], rules));
                        if among(listed, listed.len() as int, queue@[i]) {
                            let w = choose|w: int|
                                0 <= w < listed.len() && #[trigger] listed[w] == queue@[i];
                            assert(waiting@[w] == queue@[i]);
                        }
                    }
                }
                assert forall|k: u16|
                    self@.values.contains_key(k) implies start.values.contains_key(k) || among(
                    queue@,
                    j as int + 1,
                    k,
                ) by {
                    if k != key && !start.values.contains_key(k) {
                        assert(cur.values.contains_key(k));
                        assert(among(queue@, j as int, k));
                        let w = choose|w: int|
                            0 <= w < j && w < queue@.len() && #[trigger] queue@[w] == k;
                        assert(queue@[w] == k);
                    }
                }
            }
            j = j + 1;
        }
        waiting
    }

    /// Recomputes the value of every cell.
    ///
    /// The values are found from nothing: first those of the cells that need
    /// no other cell, then in sweep after sweep those of the formulas whose
    /// cells have all got theirs. When a sweep finds no new value, the
    /// formulas that are left show the reference error.
    pub fn update_values<C: Fn(Operation<V>) -> V, N: Fn(&[u8]) -> Option<V>, S: Fn(V) -> String>(
        &mut self,
        calc: &C,
        number: &N,
        show: &S,
    )
        requires
            host_answers(*calc, *number, *show),
        ensures
            recalculated(old(self)@.cells, final(self)@, rules_of(*calc, *number, *show)),
    {
        let ghost rules = rules_of(*calc, *number, *show);
        let ghost cells = self@.cells;
        self.values.clear();
        let codes = self.codes();
        proof {
            let rank = Map::<u16, nat>::empty();
            assert(timed(cells, self@.values.dom(), rank, 0));
            assert(underway(cells, self@, rules));
            assert forall|i: int| 0 <= i < codes@.len() implies cells.contains_key(
                #[trigger] codes@[i],
            ) by {
                assert(codes@.contains(codes@[i]));
            }
        }
        let mut waiting = self.sweep(&codes, calc, number, show, Ghost(cells));
        let mut remaining = waiting.len();
        proof {
            assert forall|k: u16| cells.contains_key(k) implies sorted_out(
                cells,
                self@.values,
                waiting@,
                k,
                rules,
            ) by {
                assert(codes@.contains(k));
                let i = choose|i: int| 0 <= i < codes@.len() && codes@[i] == k;
                assert(codes@[i] == k);
            }
        }
        while remaining > 0
            invariant
                rules == rules_of(*calc, *number, *show),
                cells == old(self)@.cells,
                host_answers(*calc, *number, *show),
                underway(cells, self@, rules),
                remaining == waiting@.len(),
                waiting@.no_duplicates(),
                forall|i: int|
                    0 <= i < waiting@.len() ==> parked(cells, self@.values, #[trigger] waiting@[i]),
                forall|k: u16|
                    cells.contains_key(k) ==> sorted_out(cells, self@.values, waiting@, k, rules),
            decreases remaining,
        {
            let queue = waiting;
            let ghost before = self@;
            waiting = self.sweep(&queue, calc, number, show, Ghost(cells));
            proof {
                assert forall|k: u16| cells.contains_key(k) implies sorted_out(
                    cells,
                    self@.values,
                    waiting@,
                    k,
                    rules,
                ) by {
                    assert(sorted_out(cells, before.values, queue@, k, rules));
                    if before.values.contains_key(k) {
                        assert(self@.values.contains_key(k));
                    } else if among(queue@, queue@.len() as int, k) {
                        let w = choose|w: int| 0 <= w < queue@.len() && #[trigger] queue@[w] == k;
                        assert(sorted_out(cells, self@.values, waiting@, queue@[w], rules));
                    }
                }
            }
            if waiting.len() >= remaining {
                self.give_up(&waiting, Ghost(cells), Ghost(rules));
                return ;
            }
            remaining = waiting.len();
        }
        proof {
            lemma_done(cells, self@, rules);
        }
    }

    /// Takes an edit: gives the cell at `key` a new text and recomputes the
    /// value of every cell. Afterwards any cell may show another text than
    /// before.
    pub fn apply_edit<C: Fn(Operation<V>) -> V, N: Fn(&[u8]) -> Option<V>, S: Fn(V) -> String>(
        &mut self,
        key: Key,
        input: String,
        calc: &C,
        number: &N,
        show: &S,
    )
        requires
            host_answers(*calc, *number, *show),
        ensures
            recalculated(
                old(self)@.cells.insert(key.spec_code(), fresh(input@)),
                final(self)@,
                rules_of(*calc, *number, *show),
            ),
    {
        self.set(key, input);
        self.update_values(calc, number, show);
    }

    /// Makes the cells of `stuck`, whose formulas cannot be evaluated, show
    /// the reference error.
    fn give_up(
        &mut self,
        stuck: &Vec<u16>,
        Ghost(cells): Ghost<Map<u16, CellView>>,
        Ghost(rules): Ghost<Rules<V>>,
    )
        requires
            underway(cells, old(self)@, rules),
            forall|i: int|
                0 <= i < stuck@.len() ==> parked(cells, old(self)@.values, #[trigger] stuck@[i])
                    && !cells[stuck@[i]].formula->0.ready(old(self)@.values.dom()),
            forall|k: u16|
                cells.contains_key(k) ==> sorted_out(cells, old(self)@.values, stuck@, k, rules),
        ensures
            recalculated(cells, final(self)@, rules),
    {
        let mut i: usize = 0;
        while i < stuck.len()
            invariant
                i <= stuck@.len(),
                self@.values == old(self)@.values,
                self@.cells.dom() == cells.dom(),
                forall|k: u16| #[trigger]
                    cells.contains_key(k) ==> self@.cells[k] == (if among(stuck@, i as int, k) {
                        CellView { display: reference_error(), ..old(self)@.cells[k] }
                    } else {
                        old(self)@.cells[k]
                    }),
                forall|i: int|
                    0 <= i < stuck@.len() ==> {
                        &&& cells.contains_key(#[trigger] stuck@[i])
                        &&& holds_formula(cells[stuck@[i]])
                    },
                underway(cells, old(self)@, rules),
            decreases stuck@.len() - i,
        {
            let key = stuck[i];
            let ghost cur = self@;
            self.mark(key);
            proof {
                assert(among(stuck@, i as int + 1, key));
                assert forall|k: u16| #[trigger] cells.contains_key(k) implies self@.cells[k] == (
                if among(stuck@, i as int + 1, k) {
                    CellView { display: reference_error(), ..old(self)@.cells[k] }
                } else {
                    old(self)@.cells[k]
                }) by {
                    if k != key {
                        if among(stuck@, i as int, k) {
                            let w = choose|w: int|
                                0 <= w < i && w < stuck@.len() && #[trigger] stuck@[w] == k;
                            assert(stuck@[w] == k);
                        }
                    }
                }
                assert(self@.cells.dom() =~= cells.dom());
            }
            i = i + 1;
        }
        proof {
            let before = old(self)@;
            let post = self@;
            assert forall|k: u16| #[trigger] cells.contains_key(k) implies settled(
                cells[k],
                post.cells[k],
                post.values,
                k,
                rules,
            ) by {
                assert(so_far(cells[k], before.cells[k], before.values, k, rules));
                if among(stuck@, stuck@.len() as int, k) {
                    let w = choose|w: int| 0 <= w < stuck@.len() && #[trigger] stuck@[w] == k;
                    assert(stuck@[w] == k);
                }
            }
            let (rank, clock) = choose|rank: Map<u16, nat>, clock: nat|
                timed(cells, before.values.dom(), rank, clock);
            assert(ordered(cells, post.values.dom(), rank));
        }
    }

    /// The cell at `key`, if it was ever given a text.
    pub fn get(&self, key: Key) -> (r: Option<&Cell>)
        ensures
            match r {
                Some(cell) => self@.cells.contains_key(key.spec_code()) && cell@
                    == self@.cells[key.spec_code()],
                None => !self@.cells.contains_key(key.spec_code()),
            },
    {
        broadcast use vstd::std_specs::hash::group_hash_axioms;

        self.cells.get(&key.code())
    }

    /// The number of cells that were ever given a text.
    pub fn len(&self) -> (n: usize)
        ensures
            n == self@.cells.dom().len(),
    {
        broadcast use vstd::std_specs::hash::group_hash_axioms;

        let n = self.cells.len();
        assert(self@.cells.dom() =~= self.cells@.dom());
        n
    }

    /// The value of the cell at `key`, if it has one.
    pub fn value(&self, key: Key) -> (r: Option<V>)
        ensures
            r == (if self@.values.contains_key(key.spec_code()) {
                Some(self@.values[key.spec_code()])
            } else {
                None
            }),
    {
        broadcast use vstd::std_specs::hash::group_hash_axioms;

        match self.values.get(&key.code()) {
            Some(v) => Some(*v),
            None => None,
        }
    }
}

} // verus!
