//! What holds of every recalculation.
//!
//! The laws are stated of [`recalculated`], which is all that
//! [`CellData::update_values`](crate::grid::CellData::update_values) promises
//! of the grid that it leaves. Those that compare two recalculations suppose
//! that the host's functions answer the same to the same question.

use crate::cell::{reference_error, CellView, Rules};
use crate::formula::{
    agree_on, lemma_evaluates_agree, lemma_evaluates_functional, lemma_ready_mentions, Operation,
};
use crate::grid::{depends, ordered, recalculated, settled, SheetView};
use vstd::prelude::*;

verus! {

/// Whether two grids hold the same cells outside `edited`.
pub open spec fn same_outside(
    a: Map<u16, CellView>,
    b: Map<u16, CellView>,
    edited: Set<u16>,
) -> bool {
    forall|k: u16|
        !edited.contains(k) ==> (#[trigger] a.contains_key(k) <==> b.contains_key(k)) && (
        a.contains_key(k) ==> a[k] == b[k])
}

/// Whether no cell outside `edited` refers to a cell in it.
pub open spec fn independent(cells: Map<u16, CellView>, edited: Set<u16>) -> bool {
    forall|cell: u16, target: u16|
        !edited.contains(cell) && #[trigger] depends(cells, cell, target) ==> !edited.contains(
            target,
        )
}

/// Whether two recalculated grids agree on the cell under `k`: on what it
/// shows and on its value.
pub open spec fn agree_at<V>(a: SheetView<V>, b: SheetView<V>, k: u16) -> bool {
    &&& a.cells[k] == b.cells[k]
    &&& a.values.contains_key(k) <==> b.values.contains_key(k)
    &&& a.values.contains_key(k) ==> a.values[k] == b.values[k]
}

/// Every value of rank below `n` in the first grid is a value in the second.
proof fn lemma_values_follow<V>(
    a: Map<u16, CellView>,
    b: Map<u16, CellView>,
    pa: SheetView<V>,
    pb: SheetView<V>,
    rules: Rules<V>,
    edited: Set<u16>,
    rank: Map<u16, nat>,
    n: nat,
)
    requires
        rules.functional(),
        recalculated(a, pa, rules),
        recalculated(b, pb, rules),
        same_outside(a, b, edited),
        independent(a, edited),
        ordered(a, pa.values.dom(), rank),
    ensures
        forall|k: u16|
            !edited.contains(k) && #[trigger] pa.values.contains_key(k) && rank[k] < n
                ==> pb.values.contains_key(k) && pb.values[k] == pa.values[k],
    decreases n,
{
    if n > 0 {
        lemma_values_follow(a, b, pa, pb, rules, edited, rank, (n - 1) as nat);
        assert forall|k: u16|
            !edited.contains(k) && #[trigger] pa.values.contains_key(k) && rank[k]
                < n implies pb.values.contains_key(k) && pb.values[k] == pa.values[k] by {
            assert(pa.values.dom().contains(k));
            assert(a.contains_key(k));
            assert(b.contains_key(k) && a[k] == b[k]);
            let cell = a[k];
            let va = pa.values[k];
            assert(settled(cell, pa.cells[k], pa.values, k, rules));
            assert(settled(cell, pb.cells[k], pb.values, k, rules));
            if cell.parse_error {
                assert(pb.values.contains_key(k));
            } else if cell.formula is Some {
                let formula = cell.formula->0;
                assert forall|m: u16| #[trigger] formula.mentions(m) implies pa.values.contains_key(
                    m,
                ) && pb.values.contains_key(m) && pa.values[m] == pb.values[m] by {
                    assert(depends(a, k, m));
                    assert(pa.values.dom().contains(m));
                    assert(rank[m] < rank[k]);
                    assert(!edited.contains(m));
                }
                lemma_ready_mentions(formula, pb.values.dom());
                assert(formula.ready(pb.values.dom()));
                assert(pb.values.contains_key(k));
                assert(agree_on(formula, pa.values, pb.values));
                lemma_evaluates_agree(formula, pa.values, pb.values, rules.arithmetic, va);
                lemma_evaluates_functional(
                    formula,
                    pb.values,
                    rules.arithmetic,
                    va,
                    pb.values[k],
                );
            } else {
                if !pb.values.contains_key(k) {
                    assert(Some(va) == None::<V>);
                }
                assert(Some(va) == Some(pb.values[k]));
            }
        }
    }
}

/// Two grids that hold the same cells outside `edited`, where no cell outside
/// refers to one inside, agree outside `edited` once both are recalculated.
pub proof fn lemma_agree_outside<V>(
    a: Map<u16, CellView>,
    b: Map<u16, CellView>,
    pa: SheetView<V>,
    pb: SheetView<V>,
    rules: Rules<V>,
    edited: Set<u16>,
)
    requires
        rules.functional(),
        recalculated(a, pa, rules),
        recalculated(b, pb, rules),
        same_outside(a, b, edited),
        independent(a, edited),
    ensures
        forall|k: u16| !edited.contains(k) && #[trigger] a.contains_key(k) ==> agree_at(pa, pb, k),
{
    let rank_a = choose|rank: Map<u16, nat>| ordered(a, pa.values.dom(), rank);
    let rank_b = choose|rank: Map<u16, nat>| ordered(b, pb.values.dom(), rank);
    assert(same_outside(b, a, edited));
    assert(independent(b, edited)) by {
        assert forall|cell: u16, target: u16|
            !edited.contains(cell) && #[trigger] depends(b, cell, target) implies !edited.contains(
            target,
        ) by {
            assert(b.contains_key(cell));
            assert(a.contains_key(cell) && a[cell] == b[cell]);
            assert(depends(a, cell, target));
        }
    }
    assert forall|k: u16| !edited.contains(k) && #[trigger] a.contains_key(k) implies agree_at(
        pa,
        pb,
        k,
    ) by {
        assert(b.contains_key(k) && a[k] == b[k]);
        if pa.values.contains_key(k) {
            lemma_values_follow(a, b, pa, pb, rules, edited, rank_a, rank_a[k] + 1);
        }
        if pb.values.contains_key(k) {
            lemma_values_follow(b, a, pb, pa, rules, edited, rank_b, rank_b[k] + 1);
        }
        assert(settled(a[k], pa.cells[k], pa.values, k, rules));
        assert(settled(b[k], pb.cells[k], pb.values, k, rules));
        assert(pa.cells[k].display == pb.cells[k].display);
    }
}

/// Recalculation is determined: there is only one grid that a recalculation
/// of given cells can end in. So the order in which the cells are visited
/// has no effect on any value or shown text.
pub proof fn lemma_recalculation_is_determined<V>(
    cells: Map<u16, CellView>,
    one: SheetView<V>,
    other: SheetView<V>,
    rules: Rules<V>,
)
    requires
        rules.functional(),
        recalculated(cells, one, rules),
        recalculated(cells, other, rules),
    ensures
        one.cells == other.cells,
        one.values == other.values,
{
    lemma_agree_outside(cells, cells, one, other, rules, Set::empty());
    assert forall|k: u16| cells.contains_key(k) implies agree_at(one, other, k) by {}
    assert(one.cells =~= other.cells);
    assert(one.values =~= other.values) by {
        assert forall|k: u16| one.values.contains_key(k) <==> other.values.contains_key(k) by {
            if one.values.contains_key(k) {
                assert(one.values.dom().contains(k));
                assert(cells.contains_key(k));
            }
            if other.values.contains_key(k) {
                assert(other.values.dom().contains(k));
                assert(cells.contains_key(k));
            }
        }
    }
}

/// A recalculated grid is a recalculation of its own cells.
pub proof fn lemma_recalculated_is_stable<V>(
    cells: Map<u16, CellView>,
    post: SheetView<V>,
    rules: Rules<V>,
)
    requires
        recalculated(cells, post, rules),
    ensures
        recalculated(post.cells, post, rules),
{
    let rank = choose|rank: Map<u16, nat>| ordered(cells, post.values.dom(), rank);
    assert forall|k: u16| #[trigger] post.cells.contains_key(k) implies settled(
        post.cells[k],
        post.cells[k],
        post.values,
        k,
        rules,
    ) by {
        assert(cells.contains_key(k));
        assert(settled(cells[k], post.cells[k], post.values, k, rules));
    }
    assert(ordered(post.cells, post.values.dom(), rank)) by {
        assert forall|cell: u16, target: u16|
            post.values.dom().contains(cell) && #[trigger] depends(
                post.cells,
                cell,
                target,
            ) implies post.values.dom().contains(target) && rank[target] < rank[cell] by {
            assert(cells.contains_key(cell));
            assert(settled(cells[cell], post.cells[cell], post.values, cell, rules));
            assert(depends(cells, cell, target));
        }
    }
}

/// Recalculation is idempotent: recalculating a grid that was just
/// recalculated changes no shown text and no value.
pub proof fn lemma_recalculation_is_idempotent<V>(
    cells: Map<u16, CellView>,
    once: SheetView<V>,
    twice: SheetView<V>,
    rules: Rules<V>,
)
    requires
        rules.functional(),
        recalculated(cells, once, rules),
        recalculated(once.cells, twice, rules),
    ensures
        twice.cells == once.cells,
        twice.values == once.values,
{
    lemma_recalculated_is_stable(cells, once, rules);
    lemma_recalculation_is_determined(once.cells, once, twice, rules);
}

/// Editing a cell to which no other cell refers changes nothing of any other
/// cell: after the recalculation each shows what it showed before, and has
/// the value that it had.
pub proof fn lemma_edit_leaves_unrelated_cells<V>(
    cells: Map<u16, CellView>,
    before: SheetView<V>,
    key: u16,
    edited: CellView,
    after: SheetView<V>,
    rules: Rules<V>,
)
    requires
        rules.functional(),
        recalculated(cells, before, rules),
        recalculated(before.cells.insert(key, edited), after, rules),
        forall|other: u16| other != key ==> !depends(before.cells, other, key),
    ensures
        forall|k: u16|
            k != key && #[trigger] before.cells.contains_key(k) ==> agree_at(before, after, k),
{
    lemma_recalculated_is_stable(cells, before, rules);
    let a = before.cells;
    let b = before.cells.insert(key, edited);
    let only = Set::<u16>::empty().insert(key);
    assert(same_outside(a, b, only));
    assert(independent(a, only));
    lemma_agree_outside(a, b, before, after, rules, only);
}

/// A cell with a syntax error always has a value, the one that the
/// arithmetic gives for [`Operation::Nan`], and goes on showing the error
/// marker. So the error holds up no formula that refers to the cell, but
/// goes into its value.
pub proof fn lemma_syntax_error_counts_as_nan<V>(
    cells: Map<u16, CellView>,
    post: SheetView<V>,
    rules: Rules<V>,
    cell: u16,
)
    requires
        recalculated(cells, post, rules),
        cells.contains_key(cell),
        cells[cell].parse_error,
    ensures
        post.values.contains_key(cell),
        rules.arithmetic.calculates(Operation::Nan, post.values[cell]),
        post.cells[cell].display == cells[cell].display,
{
    assert(settled(cells[cell], post.cells[cell], post.values, cell, rules));
}

/// A formula whose cells all have values has a value itself, which is a
/// value of the formula and is what the cell shows: no formula that can be
/// evaluated is passed over.
pub proof fn lemma_ready_formula_has_value<V>(
    cells: Map<u16, CellView>,
    post: SheetView<V>,
    rules: Rules<V>,
    cell: u16,
)
    requires
        recalculated(cells, post, rules),
        cells.contains_key(cell),
        !cells[cell].parse_error,
        cells[cell].formula is Some,
        forall|target: u16| depends(cells, cell, target) ==> post.values.contains_key(target),
    ensures
        post.values.contains_key(cell),
        cells[cell].formula->0.evaluates(post.values, rules.arithmetic, post.values[cell]),
        rules.shows(post.values[cell], post.cells[cell].display),
{
    let formula = cells[cell].formula->0;
    assert(settled(cells[cell], post.cells[cell], post.values, cell, rules));
    lemma_ready_mentions(formula, post.values.dom());
    assert forall|k: u16| formula.mentions(k) implies post.values.dom().contains(k) by {
        assert(depends(cells, cell, k));
    }
}

/// A formula that refers to a cell without a value has no value itself, and
/// shows the reference error.
pub proof fn lemma_unresolved_reference<V>(
    cells: Map<u16, CellView>,
    post: SheetView<V>,
    rules: Rules<V>,
    cell: u16,
    target: u16,
)
    requires
        recalculated(cells, post, rules),
        depends(cells, cell, target),
        !post.values.contains_key(target),
    ensures
        !post.values.contains_key(cell),
        post.cells[cell].display == reference_error(),
{
    let rank = choose|rank: Map<u16, nat>| ordered(cells, post.values.dom(), rank);
    if post.values.contains_key(cell) {
        assert(post.values.dom().contains(cell));
        assert(post.values.dom().contains(target));
    }
    assert(cells.contains_key(cell));
    assert(settled(cells[cell], post.cells[cell], post.values, cell, rules));
}

/// A formula that refers to a cell that was never given a text shows the
/// reference error.
pub proof fn lemma_missing_reference<V>(
    cells: Map<u16, CellView>,
    post: SheetView<V>,
    rules: Rules<V>,
    cell: u16,
    target: u16,
)
    requires
        recalculated(cells, post, rules),
        depends(cells, cell, target),
        !cells.contains_key(target),
    ensures
        !post.values.contains_key(cell),
        post.cells[cell].display == reference_error(),
{
    if post.values.contains_key(target) {
        assert(post.values.dom().contains(target));
    }
    lemma_unresolved_reference(cells, post, rules, cell, target);
}

/// Whether `walk` leads from a cell back to itself, each cell on the way
/// referring to the next.
pub open spec fn is_cycle(cells: Map<u16, CellView>, walk: Seq<u16>) -> bool {
    &&& walk.len() >= 2
    &&& walk[0] == walk[walk.len() - 1]
    &&& forall|i: int| 0 <= i < walk.len() - 1 ==> #[trigger] depends(cells, walk[i], walk[i + 1])
}

/// Along references, values go down in rank.
proof fn lemma_walk_descends<V>(
    cells: Map<u16, CellView>,
    post: SheetView<V>,
    rank: Map<u16, nat>,
    walk: Seq<u16>,
    from: int,
    to: int,
)
    requires
        ordered(cells, post.values.dom(), rank),
        forall|i: int| 0 <= i < walk.len() - 1 ==> #[trigger] depends(cells, walk[i], walk[i + 1]),
        0 <= from <= to < walk.len(),
        post.values.contains_key(walk[from]),
    ensures
        post.values.contains_key(walk[to]),
        rank[walk[to]] + (to - from) <= rank[walk[from]],
    decreases to - from,
{
    if from < to {
        lemma_walk_descends(cells, post, rank, walk, from, to - 1);
        assert(depends(cells, walk[to - 1], walk[to - 1 + 1]));
        assert(post.values.dom().contains(walk[to - 1]));
        assert(post.values.dom().contains(walk[to]));
    }
}

/// Every cell on a cycle of references, be it a cell that refers to itself
/// or one of several that refer to each other in a ring, has no value and
/// shows the reference error.
pub proof fn lemma_cycle_is_reference_error<V>(
    cells: Map<u16, CellView>,
    post: SheetView<V>,
    rules: Rules<V>,
    walk: Seq<u16>,
)
    requires
        recalculated(cells, post, rules),
        is_cycle(cells, walk),
    ensures
        forall|i: int|
            0 <= i < walk.len() ==> !post.values.contains_key(#[trigger] walk[i])
                && post.cells[walk[i]].display == reference_error(),
{
    let rank = choose|rank: Map<u16, nat>| ordered(cells, post.values.dom(), rank);
    let last = walk.len() - 1;
    if post.values.contains_key(walk[0]) {
        lemma_walk_descends(cells, post, rank, walk, 0, last);
    }
    assert forall|i: int| 0 <= i < walk.len() implies !post.values.contains_key(
        #[trigger] walk[i],
    ) && post.cells[walk[i]].display == reference_error() by {
        if post.values.contains_key(walk[i]) {
            lemma_walk_descends(cells, post, rank, walk, i, last);
        }
        let j = if i < last {
            i
        } else {
            0
        };
        assert(walk[j] == walk[i]);
        assert(depends(cells, walk[j], walk[j + 1]));
        assert(cells.contains_key(walk[i]));
        assert(settled(cells[walk[i]], post.cells[walk[i]], post.values, walk[i], rules));
    }
}

} // verus!
