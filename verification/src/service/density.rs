//! The positions of the cells of a file are dense: they are 0, 1, 2 and so
//! on without a gap, and no two cells share one. Creating, deleting and
//! moving cells keep them so.

use vstd::prelude::*;
use crate::clock::Timestamp;
use crate::entity::cell;
use crate::entity::cell::CellType;
use crate::service::cell_service::created_cell;
use crate::service::cell_service::lemma_renumbered_wf;
use crate::service::cell_service::lemma_with_cell_wf;
use crate::service::cell_service::lemma_without_cell_wf;
use crate::service::repetition_service::lemma_reconciled_wf;
use crate::service::repetition_service::of_other_cells;
use crate::store::fits_i32;
use crate::service::cell_service::deleted_cell;
use crate::service::cell_service::effective_target;
use crate::service::cell_service::moved_cell;
use crate::service::cell_service::placed;
use crate::service::cell_service::position_taken;
use crate::service::cell_service::shifted;
use crate::store::lemma_cell_at;
use crate::store::TablesView;

verus! {

/// How many of `cells` belong to the file `file_id`.
pub open spec fn cell_count(cells: Seq<cell::ModelView>, file_id: int) -> nat
    decreases cells.len(),
{
    if cells.len() == 0 {
        0
    } else if cells.last().file_id == file_id {
        1 + cell_count(cells.drop_last(), file_id)
    } else {
        cell_count(cells.drop_last(), file_id)
    }
}

/// Whether the positions of the cells of the file `file_id` are exactly
/// 0, 1, ..., n - 1, where n is the number of those cells, and no two of the
/// cells share a position.
pub open spec fn is_dense(cells: Seq<cell::ModelView>, file_id: int) -> bool {
    &&& forall|k: int|
        #[trigger] position_taken(cells, file_id, k) <==> 0 <= k < cell_count(cells, file_id)
    &&& forall|i: int, j: int|
        0 <= i < j < cells.len() && (#[trigger] cells[i]).file_id == file_id && (
        #[trigger] cells[j]).file_id == file_id ==> cells[i].index != cells[j].index
}

/// Whether the positions of the cells of every file are dense.
pub open spec fn all_dense(s: TablesView) -> bool {
    forall|file_id: int| #[trigger] is_dense(s.cells, file_id)
}

/// Cells that keep their files are as many in each file as before.
pub proof fn lemma_count_same_files(
    before: Seq<cell::ModelView>,
    after: Seq<cell::ModelView>,
    file_id: int,
)
    requires
        before.len() == after.len(),
        forall|i: int| 0 <= i < before.len() ==> (#[trigger] after[i]).file_id == before[i].file_id,
    ensures
        cell_count(after, file_id) == cell_count(before, file_id),
    decreases before.len(),
{
    if before.len() > 0 {
        assert(after.last().file_id == before[before.len() - 1].file_id);
        assert forall|i: int| 0 <= i < before.drop_last().len() implies (
        #[trigger] after.drop_last()[i]).file_id == before.drop_last()[i].file_id by {
            assert(after[i].file_id == before[i].file_id);
        }
        lemma_count_same_files(before.drop_last(), after.drop_last(), file_id);
    }
}

/// One more cell is one more in its file, and as many in the others.
pub proof fn lemma_count_push(cells: Seq<cell::ModelView>, row: cell::ModelView, file_id: int)
    ensures
        cell_count(cells.push(row), file_id) == cell_count(cells, file_id) + if row.file_id
            == file_id {
            1int
        } else {
            0int
        },
{
    assert(cells.push(row).drop_last() =~= cells);
}

/// One cell less is one less in its file, and as many in the others.
pub proof fn lemma_count_remove(cells: Seq<cell::ModelView>, at: int, file_id: int)
    requires
        0 <= at < cells.len(),
    ensures
        cell_count(cells.remove(at), file_id) + if cells[at].file_id == file_id {
            1int
        } else {
            0int
        } == cell_count(cells, file_id),
    decreases cells.len(),
{
    if at == cells.len() - 1 {
        assert(cells.remove(at) =~= cells.drop_last());
    } else {
        assert(cells.remove(at).drop_last() =~= cells.drop_last().remove(at));
        assert(cells.remove(at).last() == cells.last());
        lemma_count_remove(cells.drop_last(), at, file_id);
    }
}

/// Making room at a position of a file that is in range, and putting a cell
/// there, keeps the positions of every file dense.
pub proof fn lemma_insert_keeps_dense(
    cells: Seq<cell::ModelView>,
    row: cell::ModelView,
    file_id: int,
)
    requires
        is_dense(cells, file_id),
        row.file_id == file_id ==> 0 <= row.index <= cell_count(cells, file_id),
    ensures
        is_dense(cells.map_values(shifted(row.file_id, row.index, 1)).push(row), file_id),
{
    let moved = cells.map_values(shifted(row.file_id, row.index, 1));
    let after = moved.push(row);
    let n = cell_count(cells, file_id);
    lemma_count_same_files(cells, moved, file_id);
    lemma_count_push(moved, row, file_id);
    assert forall|k: int| #[trigger]
        position_taken(after, file_id, k) <==> 0 <= k < cell_count(after, file_id) by {
        if position_taken(after, file_id, k) {
            let w = choose|w: int|
                0 <= w < after.len() && (#[trigger] after[w]).file_id == file_id && after[w].index
                    == k;
            if w < cells.len() {
                assert(cells[w].file_id == file_id);
                assert(position_taken(cells, file_id, cells[w].index));
            }
        }
        if 0 <= k < cell_count(after, file_id) {
            if row.file_id != file_id {
                assert(position_taken(cells, file_id, k));
                let w = choose|w: int|
                    0 <= w < cells.len() && (#[trigger] cells[w]).file_id == file_id
                        && cells[w].index == k;
                assert(after[w].file_id == file_id && after[w].index == k);
            } else if k < row.index {
                assert(position_taken(cells, file_id, k));
                let w = choose|w: int|
                    0 <= w < cells.len() && (#[trigger] cells[w]).file_id == file_id
                        && cells[w].index == k;
                assert(after[w].file_id == file_id && after[w].index == k);
            } else if k == row.index {
                assert(after[cells.len() as int].file_id == file_id && after[cells.len() as int].index
                    == k);
            } else {
                assert(position_taken(cells, file_id, k - 1));
                let w = choose|w: int|
                    0 <= w < cells.len() && (#[trigger] cells[w]).file_id == file_id
                        && cells[w].index == k - 1;
                assert(after[w].file_id == file_id && after[w].index == k);
            }
        }
    }
    assert forall|i: int, j: int|
        0 <= i < j < after.len() && (#[trigger] after[i]).file_id == file_id && (
        #[trigger] after[j]).file_id == file_id implies after[i].index != after[j].index by {
        assert(cells[i].file_id == file_id);
        if j < cells.len() {
            assert(cells[j].file_id == file_id);
            assert(cells[i].index != cells[j].index);
        }
    }
}

/// Taking a cell out, and moving down the cells that followed it in its
/// file, keeps the positions of every file dense.
pub proof fn lemma_remove_keeps_dense(cells: Seq<cell::ModelView>, at: int, file_id: int)
    requires
        0 <= at < cells.len(),
        is_dense(cells, file_id),
    ensures
        is_dense(
            cells.remove(at).map_values(shifted(cells[at].file_id, cells[at].index + 1, -1)),
            file_id,
        ),
{
    let gone = cells[at];
    let rest = cells.remove(at);
    let after = rest.map_values(shifted(gone.file_id, gone.index + 1, -1));
    lemma_count_remove(cells, at, file_id);
    lemma_count_same_files(rest, after, file_id);
    assert forall|k: int| #[trigger]
        position_taken(after, file_id, k) <==> 0 <= k < cell_count(after, file_id) by {
        if position_taken(after, file_id, k) {
            let w = choose|w: int|
                0 <= w < after.len() && (#[trigger] after[w]).file_id == file_id && after[w].index
                    == k;
            let from = if w < at { w } else { w + 1 };
            assert(cells[from].file_id == file_id);
            assert(position_taken(cells, file_id, cells[from].index));
            if gone.file_id == file_id {
                assert(position_taken(cells, file_id, gone.index));
                if from < at {
                    assert(cells[from].index != cells[at].index);
                } else {
                    assert(cells[at].index != cells[from].index);
                }
            }
        }
        if 0 <= k < cell_count(after, file_id) {
            let wanted = if gone.file_id == file_id && k >= gone.index { k + 1 } else { k };
            if gone.file_id == file_id {
                assert(position_taken(cells, file_id, gone.index));
            }
            assert(position_taken(cells, file_id, wanted));
            let from = choose|w: int|
                0 <= w < cells.len() && (#[trigger] cells[w]).file_id == file_id && cells[w].index
                    == wanted;
            if from == at {
                assert(wanted == gone.index);
                assert(false);
            }
            let w = if from < at { from } else { from - 1 };
            assert(after[w].file_id == file_id && after[w].index == k);
        }
    }
    assert forall|i: int, j: int|
        0 <= i < j < after.len() && (#[trigger] after[i]).file_id == file_id && (
        #[trigger] after[j]).file_id == file_id implies after[i].index != after[j].index by {
        let a = if i < at { i } else { i + 1 };
        let b = if j < at { j } else { j + 1 };
        assert(cells[a].file_id == file_id && cells[b].file_id == file_id);
        assert(cells[a].index != cells[b].index);
    }
}

/// Closing the gap that a cell leaves, making room at a new position of its
/// file that is in range, and putting the cell there, keeps the positions of
/// every file dense.
pub proof fn lemma_move_keeps_dense(
    cells: Seq<cell::ModelView>,
    at: int,
    new_index: int,
    file_id: int,
)
    requires
        0 <= at < cells.len(),
        forall|i: int, j: int|
            0 <= i < j < cells.len() ==> (#[trigger] cells[i]).id != (#[trigger] cells[j]).id,
        is_dense(cells, file_id),
        cells[at].file_id == file_id ==> 0 <= new_index <= cell_count(cells, file_id),
    ensures
        is_dense(
            cells.map_values(shifted(cells[at].file_id, cells[at].index + 1, -1)).map_values(
                shifted(cells[at].file_id, effective_target(cells[at].index, new_index), 1),
            ).map_values(placed(cells[at].id, effective_target(cells[at].index, new_index))),
            file_id,
        ),
{
    let moving = cells[at];
    let old_index = moving.index;
    let target = effective_target(old_index, new_index);
    let closed = cells.map_values(shifted(moving.file_id, old_index + 1, -1));
    let opened = closed.map_values(shifted(moving.file_id, target, 1));
    let after = opened.map_values(placed(moving.id, target));
    let n = cell_count(cells, file_id);
    lemma_count_same_files(cells, after, file_id);
    if moving.file_id != file_id {
        assert forall|i: int| 0 <= i < cells.len() && (#[trigger] cells[i]).file_id
            == file_id implies after[i] == cells[i] by {
            if i < at {
                assert(cells[i].id != cells[at].id);
            } else {
                assert(cells[at].id != cells[i].id);
            }
        }
        assert forall|k: int| #[trigger]
            position_taken(after, file_id, k) <==> 0 <= k < cell_count(after, file_id) by {
            if position_taken(after, file_id, k) {
                let w = choose|w: int|
                    0 <= w < after.len() && (#[trigger] after[w]).file_id == file_id
                        && after[w].index == k;
                assert(cells[w].file_id == file_id);
                assert(position_taken(cells, file_id, k));
            }
            if 0 <= k < n {
                assert(position_taken(cells, file_id, k));
                let w = choose|w: int|
                    0 <= w < cells.len() && (#[trigger] cells[w]).file_id == file_id
                        && cells[w].index == k;
                assert(after[w].file_id == file_id && after[w].index == k);
            }
        }
        assert forall|i: int, j: int|
            0 <= i < j < after.len() && (#[trigger] after[i]).file_id == file_id && (
            #[trigger] after[j]).file_id == file_id implies after[i].index != after[j].index by {
            assert(cells[i].file_id == file_id && cells[j].file_id == file_id);
            assert(cells[i].index != cells[j].index);
        }
    } else {
        assert(position_taken(cells, file_id, old_index));
        assert forall|i: int| 0 <= i < cells.len() && i != at && (#[trigger] cells[i]).file_id
            == file_id implies cells[i].index != old_index && 0 <= cells[i].index < n
            && after[i].index == {
            let gap_closed = if cells[i].index > old_index {
                cells[i].index - 1
            } else {
                cells[i].index
            };
            if gap_closed >= target {
                gap_closed + 1
            } else {
                gap_closed
            }
        } by {
            assert(position_taken(cells, file_id, cells[i].index));
            if i < at {
                assert(cells[i].id != cells[at].id);
                assert(cells[i].index != cells[at].index);
            } else {
                assert(cells[at].id != cells[i].id);
                assert(cells[at].index != cells[i].index);
            }
        }
        assert(after[at].index == target);
        assert forall|k: int| #[trigger]
            position_taken(after, file_id, k) <==> 0 <= k < cell_count(after, file_id) by {
            if position_taken(after, file_id, k) {
                let w = choose|w: int|
                    0 <= w < after.len() && (#[trigger] after[w]).file_id == file_id
                        && after[w].index == k;
                assert(cells[w].file_id == file_id);
            }
            if 0 <= k < n {
                if k == target {
                    assert(after[at].file_id == file_id && after[at].index == k);
                } else {
                    let gap_closed = if k > target { k - 1 } else { k };
                    let from = if gap_closed >= old_index { gap_closed + 1 } else { gap_closed };
                    assert(position_taken(cells, file_id, from));
                    let w = choose|w: int|
                        0 <= w < cells.len() && (#[trigger] cells[w]).file_id == file_id
                            && cells[w].index == from;
                    assert(after[w].file_id == file_id && after[w].index == k);
                }
            }
        }
        assert forall|i: int, j: int|
            0 <= i < j < after.len() && (#[trigger] after[i]).file_id == file_id && (
            #[trigger] after[j]).file_id == file_id implies after[i].index != after[j].index by {
            assert(cells[i].file_id == file_id && cells[j].file_id == file_id);
            assert(cells[i].index != cells[j].index);
        }
    }
}

/// The positions of a store without cells are dense.
pub proof fn law_empty_is_dense()
    ensures
        all_dense(TablesView::empty()),
{
    assert forall|file_id: int| #[trigger] is_dense(TablesView::empty().cells, file_id) by {
        assert forall|k: int| #[trigger]
            position_taken(TablesView::empty().cells, file_id, k) <==> 0 <= k < cell_count(
                TablesView::empty().cells,
                file_id,
            ) by {}
    }
}

/// Creating a cell at a position between 0 and the number of cells of its
/// file keeps the positions of every file dense.
pub proof fn law_create_cell_keeps_dense(
    s: TablesView,
    file_id: int,
    content: Seq<char>,
    cell_type: CellType,
    index: int,
    found: Seq<Seq<char>>,
    now: Timestamp,
)
    requires
        all_dense(s),
        0 <= index <= cell_count(s.cells, file_id),
        created_cell(s, file_id, content, cell_type, index, found, now) is Ok,
    ensures
        all_dense(created_cell(s, file_id, content, cell_type, index, found, now)->Ok_0.0),
{
    let next = created_cell(s, file_id, content, cell_type, index, found, now)->Ok_0.0;
    let row = cell::ModelView { id: s.last_cell_id + 1, file_id, index, content, cell_type };
    assert forall|other: int| #[trigger] is_dense(next.cells, other) by {
        assert(is_dense(s.cells, other));
        lemma_insert_keeps_dense(s.cells, row, other);
    }
}

/// Deleting a cell keeps the positions of every file dense.
pub proof fn law_delete_cell_keeps_dense(s: TablesView, cell_id: int)
    requires
        s.wf(),
        all_dense(s),
        deleted_cell(s, cell_id) is Ok,
    ensures
        all_dense(deleted_cell(s, cell_id)->Ok_0),
{
    let next = deleted_cell(s, cell_id)->Ok_0;
    let at = s.cell_position(cell_id);
    assert forall|other: int| #[trigger] is_dense(next.cells, other) by {
        assert(is_dense(s.cells, other));
        lemma_remove_keeps_dense(s.cells, at, other);
    }
}

/// Moving a cell to a position between 0 and the number of cells of its file
/// keeps the positions of every file dense.
pub proof fn law_move_cell_keeps_dense(s: TablesView, cell_id: int, new_index: int)
    requires
        s.wf(),
        all_dense(s),
        0 <= new_index <= cell_count(s.cells, s.cell(cell_id).file_id),
        moved_cell(s, cell_id, new_index) is Ok,
    ensures
        all_dense(moved_cell(s, cell_id, new_index)->Ok_0),
{
    let next = moved_cell(s, cell_id, new_index)->Ok_0;
    let at = s.cell_position(cell_id);
    lemma_cell_at(s, at);
    assert forall|other: int| #[trigger] is_dense(next.cells, other) by {
        assert(is_dense(s.cells, other));
        assert forall|i: int, j: int| 0 <= i < j < s.cells.len() implies (#[trigger] s.cells[i]).id
            != (#[trigger] s.cells[j]).id by {
            assert(s.cells[i].id < s.cells[j].id);
        }
        lemma_move_keeps_dense(s.cells, at, new_index, other);
    }
}

/// One operation on cells.
pub enum CellStep {
    Create {
        file_id: int,
        content: Seq<char>,
        cell_type: CellType,
        index: int,
        found: Seq<Seq<char>>,
        now: Timestamp,
    },
    Delete { cell_id: int },
    Move { cell_id: int, new_index: int },
}

/// The tables after `step`; those before it where it fails.
pub open spec fn after_step(s: TablesView, step: CellStep) -> TablesView {
    match step {
        CellStep::Create { file_id, content, cell_type, index, found, now } => match created_cell(
            s,
            file_id,
            content,
            cell_type,
            index,
            found,
            now,
        ) {
            Ok((next, _)) => next,
            Err(_) => s,
        },
        CellStep::Delete { cell_id } => match deleted_cell(s, cell_id) {
            Ok(next) => next,
            Err(_) => s,
        },
        CellStep::Move { cell_id, new_index } => match moved_cell(s, cell_id, new_index) {
            Ok(next) => next,
            Err(_) => s,
        },
    }
}

/// Whether `step` names a position between 0 and the number of cells of the
/// file that it works on.
pub open spec fn is_in_range(s: TablesView, step: CellStep) -> bool {
    match step {
        CellStep::Create { file_id, index, .. } => 0 <= index <= cell_count(s.cells, file_id),
        CellStep::Delete { .. } => true,
        CellStep::Move { cell_id, new_index } => 0 <= new_index <= cell_count(
            s.cells,
            s.cell(cell_id).file_id,
        ),
    }
}

/// The tables after `steps`, taken in turn.
pub open spec fn after_steps(s: TablesView, steps: Seq<CellStep>) -> TablesView
    decreases steps.len(),
{
    if steps.len() == 0 {
        s
    } else {
        after_step(after_steps(s, steps.drop_last()), steps.last())
    }
}

/// Whether each of `steps` names a position that is in range when its turn
/// comes.
pub open spec fn are_in_range(s: TablesView, steps: Seq<CellStep>) -> bool
    decreases steps.len(),
{
    steps.len() == 0 || (are_in_range(s, steps.drop_last()) && is_in_range(
        after_steps(s, steps.drop_last()),
        steps.last(),
    ))
}

/// A file has no more cells than the store has given out ids.
pub proof fn lemma_count_bounded(s: TablesView, file_id: int)
    requires
        s.cells_wf(),
    ensures
        cell_count(s.cells, file_id) <= s.cells.len() <= s.last_cell_id,
{
    lemma_count_at_most(s.cells, file_id);
    if s.cells.len() > 0 {
        lemma_ids_rise(s, s.cells.len() - 1);
    }
}

/// A file has no more cells than there are cells.
pub proof fn lemma_count_at_most(cells: Seq<cell::ModelView>, file_id: int)
    ensures
        cell_count(cells, file_id) <= cells.len(),
    decreases cells.len(),
{
    if cells.len() > 0 {
        lemma_count_at_most(cells.drop_last(), file_id);
    }
}

/// Ids that rise from 1 on are no lower than the places of their rows.
pub proof fn lemma_ids_rise(s: TablesView, i: int)
    requires
        s.cells_wf(),
        0 <= i < s.cells.len(),
    ensures
        s.cells[i].id >= i + 1,
    decreases i,
{
    if i > 0 {
        lemma_ids_rise(s, i - 1);
        assert(s.cells[i - 1].id < s.cells[i].id);
    }
}

/// An operation on cells keeps the tables well formed.
pub proof fn lemma_step_keeps_wf(s: TablesView, step: CellStep)
    requires
        s.wf(),
        is_in_range(s, step),
    ensures
        after_step(s, step).wf(),
{
    match step {
        CellStep::Create { file_id, content, cell_type, index, found, now } => {
            if created_cell(s, file_id, content, cell_type, index, found, now) is Ok {
                lemma_count_bounded(s, file_id);
                lemma_with_cell_wf(s, file_id, index, content, cell_type);
                lemma_reconciled_wf(
                    s.with_cell(file_id, index, content, cell_type),
                    file_id,
                    s.last_cell_id + 1,
                    cell_type,
                    found,
                    now,
                );
            }
        },
        CellStep::Delete { cell_id } => {
            if deleted_cell(s, cell_id) is Ok {
                let at = s.cell_position(cell_id);
                lemma_cell_at(s, at);
                lemma_without_cell_wf(s, at);
                let gone = s.cells[at];
                let mid = TablesView {
                    cells: s.cells.remove(at),
                    repetitions: s.repetitions.filter(of_other_cells(cell_id)),
                    ..s
                };
                let cells = mid.cells.map_values(shifted(gone.file_id, gone.index + 1, -1));
                assert forall|i: int| 0 <= i < cells.len() implies (#[trigger] cells[i]).id
                    == mid.cells[i].id && cells[i].file_id == mid.cells[i].file_id && fits_i32(
                    cells[i].index,
                ) by {
                    assert(fits_i32(mid.cells[i].index));
                    assert(fits_i32(gone.index));
                }
                lemma_renumbered_wf(mid, cells);
            }
        },
        CellStep::Move { cell_id, new_index } => {
            if moved_cell(s, cell_id, new_index) is Ok {
                let at = s.cell_position(cell_id);
                lemma_cell_at(s, at);
                let moving = s.cells[at];
                let target = effective_target(moving.index, new_index);
                lemma_count_bounded(s, moving.file_id);
                let cells = s.cells.map_values(
                    shifted(moving.file_id, moving.index + 1, -1),
                ).map_values(shifted(moving.file_id, target, 1)).map_values(
                    placed(cell_id, target),
                );
                assert(fits_i32(moving.index));
                assert forall|i: int| 0 <= i < cells.len() implies (#[trigger] cells[i]).id
                    == s.cells[i].id && cells[i].file_id == s.cells[i].file_id && fits_i32(
                    cells[i].index,
                ) by {
                    assert(fits_i32(s.cells[i].index));
                }
                lemma_renumbered_wf(s, cells);
            }
        },
    }
}

/// An operation on cells that names a position in range keeps the positions
/// of every file dense.
pub proof fn lemma_step_keeps_dense(s: TablesView, step: CellStep)
    requires
        s.wf(),
        all_dense(s),
        is_in_range(s, step),
    ensures
        all_dense(after_step(s, step)),
{
    match step {
        CellStep::Create { file_id, content, cell_type, index, found, now } => {
            if created_cell(s, file_id, content, cell_type, index, found, now) is Ok {
                law_create_cell_keeps_dense(s, file_id, content, cell_type, index, found, now);
            }
        },
        CellStep::Delete { cell_id } => {
            if deleted_cell(s, cell_id) is Ok {
                law_delete_cell_keeps_dense(s, cell_id);
            }
        },
        CellStep::Move { cell_id, new_index } => {
            if moved_cell(s, cell_id, new_index) is Ok {
                law_move_cell_keeps_dense(s, cell_id, new_index);
            }
        },
    }
}

/// Whatever cells are created, deleted and moved, in whatever order: as long
/// as each position that is named is in range when its turn comes, the
/// positions of the cells of every file stay 0, 1, 2 and so on without a gap,
/// and no two cells of a file share one.
pub proof fn law_positions_stay_dense(s: TablesView, steps: Seq<CellStep>)
    requires
        s.wf(),
        all_dense(s),
        are_in_range(s, steps),
    ensures
        after_steps(s, steps).wf(),
        all_dense(after_steps(s, steps)),
    decreases steps.len(),
{
    if steps.len() > 0 {
        law_positions_stay_dense(s, steps.drop_last());
        lemma_step_keeps_wf(after_steps(s, steps.drop_last()), steps.last());
        lemma_step_keeps_dense(after_steps(s, steps.drop_last()), steps.last());
    }
}

} // verus!
