//! The cells of a file, each at its position: creating, deleting and moving
//! cells renumbers the cells around them.

use vstd::prelude::*;
use vstd::seq_lib::to_multiset_build;
use vstd::seq_lib::to_multiset_insert;
use crate::clock::current_time;
use crate::clock::Timestamp;
use crate::cloze::find_markers;
use crate::cloze::markers_of;
use crate::dto::update_cell_request::UpdateCellRequest;
use crate::dto::update_cell_request::UpdateCellRequestView;
use crate::entity::cell;
use crate::entity::cell::CellType;
use crate::error::delivers;
use crate::error::delivers_id;
use crate::error::ServiceError;
use crate::error::StoreFault;
use crate::seqs::kept_from;
use crate::seqs::lemma_filter_empty;
use crate::seqs::lemma_filter_keeps_order;
use crate::seqs::lemma_filter_take_next;
use crate::seqs::text_views;
use crate::service::repetition_service::of_other_cells;
use crate::service::repetition_service::drop_repetitions_of;
use crate::service::repetition_service::lacking_rows;
use crate::service::repetition_service::reconcile;
use crate::service::repetition_service::reconciled;
use crate::store::cell_views;
use crate::store::fits_i32;
use crate::store::lemma_cell_at;
use crate::store::Store;
use crate::store::Tables;
use crate::store::TablesView;

verus! {

/// The renumbering that moves the cells of the file `file_id` at position
/// `from` and after it by `by`.
pub open spec fn shifted(file_id: int, from: int, by: int) -> spec_fn(cell::ModelView) -> cell::ModelView {
    |row: cell::ModelView|
        if row.file_id == file_id && row.index >= from {
            cell::ModelView { index: row.index + by, ..row }
        } else {
            row
        }
}

/// The renumbering that puts the cell `cell_id` at `position`.
pub open spec fn placed(cell_id: int, position: int) -> spec_fn(cell::ModelView) -> cell::ModelView {
    |row: cell::ModelView|
        if row.id == cell_id {
            cell::ModelView { index: position, ..row }
        } else {
            row
        }
}

/// Whether a cell of the file `file_id` stands at `position`.
pub open spec fn position_taken(cells: Seq<cell::ModelView>, file_id: int, position: int) -> bool {
    exists|i: int|
        0 <= i < cells.len() && (#[trigger] cells[i]).file_id == file_id && cells[i].index
            == position
}

/// Cells that are renumbered, and positions that stay in range, keep the
/// tables well formed.
pub proof fn lemma_renumbered_wf(s: TablesView, cells: Seq<cell::ModelView>)
    requires
        s.wf(),
        cells.len() == s.cells.len(),
        forall|i: int|
            0 <= i < cells.len() ==> (#[trigger] cells[i]).id == s.cells[i].id && cells[i].file_id
                == s.cells[i].file_id && fits_i32(cells[i].index),
    ensures
        (TablesView { cells, ..s }).wf(),
{
    let next = TablesView { cells, ..s };
    assert forall|i: int, j: int| 0 <= i < j < cells.len() implies (#[trigger] cells[i]).id < (
    #[trigger] cells[j]).id by {
        assert(s.cells[i].id < s.cells[j].id);
    }
    assert forall|i: int| 0 <= i < cells.len() implies 1 <= (#[trigger] cells[i]).id
        <= next.last_cell_id && next.has_node(cells[i].file_id) by {
        assert(s.has_node(s.cells[i].file_id));
    }
    assert forall|i: int| 0 <= i < next.repetitions.len() implies next.has_cell(
        (#[trigger] next.repetitions[i]).cell_id,
    ) by {
        let w = choose|w: int|
            0 <= w < s.cells.len() && (#[trigger] s.cells[w]).id == s.repetitions[i].cell_id;
        assert(cells[w].id == s.repetitions[i].cell_id);
    }
}

/// Whether a cell of the file `file_id` stands at `position`.
fn is_position_taken(tables: &Tables, file_id: i32, position: i32) -> (taken: bool)
    ensures
        taken == position_taken(tables@.cells, file_id as int, position as int),
{
    let mut i: usize = 0;
    while i < tables.cells.len()
        invariant
            i <= tables.cells@.len(),
            forall|j: int|
                0 <= j < i ==> !((#[trigger] tables@.cells[j]).file_id == file_id
                    && tables@.cells[j].index == position),
        decreases tables.cells@.len() - i,
    {
        if tables.cells[i].file_id == file_id && tables.cells[i].index == position {
            assert(tables@.cells[i as int].file_id == file_id);
            return true;
        }
        i = i + 1;
    }
    false
}

/// Moves the cells of the file `file_id` at position `from` and after it by
/// one position, up or down.
fn shift_cells(tables: &mut Tables, file_id: i32, from: i32, up: bool)
    requires
        old(tables)@.wf(),
        up ==> !position_taken(old(tables)@.cells, file_id as int, i32::MAX as int),
        !up ==> from > i32::MIN,
    ensures
        final(tables)@ == (TablesView {
            cells: old(tables)@.cells.map_values(
                shifted(file_id as int, from as int, if up { 1int } else { -1int }),
            ),
            ..old(tables)@
        }),
        final(tables)@.wf(),
{
    let ghost before = tables@;
    let ghost by = if up { 1int } else { -1int };
    let ghost renumber = shifted(file_id as int, from as int, by);
    let mut i: usize = 0;
    while i < tables.cells.len()
        invariant
            i <= tables.cells@.len(),
            before.wf(),
            up ==> !position_taken(before.cells, file_id as int, i32::MAX as int),
            !up ==> from > i32::MIN,
            by == if up { 1int } else { -1int },
            renumber == shifted(file_id as int, from as int, by),
            tables.cells@.len() == before.cells.len(),
            tables.files == old(tables).files,
            tables.repetitions == old(tables).repetitions,
            tables.reviews == old(tables).reviews,
            tables.last_file_id == old(tables).last_file_id,
            tables.last_cell_id == old(tables).last_cell_id,
            tables.last_repetition_id == old(tables).last_repetition_id,
            tables.last_review_id == old(tables).last_review_id,
            forall|j: int| 0 <= j < i ==> (#[trigger] tables@.cells[j]) == renumber(before.cells[j]),
            forall|j: int|
                i <= j < before.cells.len() ==> (#[trigger] tables@.cells[j]) == before.cells[j],
        decreases tables.cells@.len() - i,
    {
        let ghost so_far = tables@.cells;
        assert(so_far[i as int] == before.cells[i as int]);
        if tables.cells[i].file_id == file_id && tables.cells[i].index >= from {
            assert(before.cells[i as int].file_id == file_id);
            let position = tables.cells[i].index;
            tables.cells[i].index = if up { position + 1 } else { position - 1 };
        }
        assert(tables@.cells =~= so_far.update(i as int, renumber(before.cells[i as int])));
        i = i + 1;
    }
    assert(tables@.cells =~= before.cells.map_values(renumber));
    proof {
        lemma_renumbered_wf(before, tables@.cells);
    }
}

impl TablesView {
    /// The tables with one more cell at `index` of the file `file_id`, which
    /// gets the next id; the cells of the file at `index` and after it have
    /// made room.
    pub open spec fn with_cell(
        self,
        file_id: int,
        index: int,
        content: Seq<char>,
        cell_type: CellType,
    ) -> TablesView {
        TablesView {
            cells: self.cells.map_values(shifted(file_id, index, 1)).push(
                cell::ModelView { id: self.last_cell_id + 1, file_id, index, content, cell_type },
            ),
            last_cell_id: self.last_cell_id + 1,
            ..self
        }
    }
}

/// What creating a cell leads to, where the markers `found` occur in its
/// content: the tables after it and the id of the cell, or the reason why
/// nothing was written. The cell has the repetitions that its type and its
/// markers ask for, fresh at `now`.
pub open spec fn created_cell(
    s: TablesView,
    file_id: int,
    content: Seq<char>,
    cell_type: CellType,
    index: int,
    found: Seq<Seq<char>>,
    now: Timestamp,
) -> Result<(TablesView, int), ServiceError> {
    let id = s.last_cell_id + 1;
    if !s.has_node(file_id) {
        Err(ServiceError::NotFound)
    } else if position_taken(s.cells, file_id, i32::MAX as int) {
        Err(ServiceError::Persistence(StoreFault::PositionOutOfRange))
    } else if id > i32::MAX {
        Err(ServiceError::Persistence(StoreFault::IdsExhausted))
    } else {
        match reconciled(
            s.with_cell(file_id, index, content, cell_type),
            file_id,
            id,
            cell_type,
            found,
            now,
        ) {
            Ok(next) => Ok((next, id)),
            Err(error) => Err(error),
        }
    }
}

/// A cell that is added to a node keeps the tables well formed.
pub proof fn lemma_with_cell_wf(
    s: TablesView,
    file_id: int,
    index: int,
    content: Seq<char>,
    cell_type: CellType,
)
    requires
        s.wf(),
        s.has_node(file_id),
        s.last_cell_id < i32::MAX,
        fits_i32(index),
        !position_taken(s.cells, file_id, i32::MAX as int),
    ensures
        s.with_cell(file_id, index, content, cell_type).wf(),
        s.with_cell(file_id, index, content, cell_type).has_cell(s.last_cell_id + 1),
        s.with_cell(file_id, index, content, cell_type).has_node(file_id),
{
    let moved = s.cells.map_values(shifted(file_id, index, 1));
    assert forall|i: int| 0 <= i < moved.len() implies (#[trigger] moved[i]).id == s.cells[i].id
        && moved[i].file_id == s.cells[i].file_id && fits_i32(moved[i].index) by {
        assert(fits_i32(s.cells[i].index));
    }
    lemma_renumbered_wf(s, moved);
    let mid = TablesView { cells: moved, ..s };
    let next = s.with_cell(file_id, index, content, cell_type);
    assert(next.cells[moved.len() as int].id == s.last_cell_id + 1);
    assert forall|i: int| 0 <= i < next.repetitions.len() implies next.has_cell(
        (#[trigger] next.repetitions[i]).cell_id,
    ) by {
        let w = choose|w: int|
            0 <= w < mid.cells.len() && (#[trigger] mid.cells[w]).id == mid.repetitions[i].cell_id;
        assert(next.cells[w].id == mid.repetitions[i].cell_id);
    }
    assert forall|i: int| 0 <= i < next.cells.len() implies next.has_node(
        (#[trigger] next.cells[i]).file_id,
    ) by {
        if i < moved.len() {
            assert(mid.has_node(mid.cells[i].file_id));
        }
    }
}

/// Creates a cell in the tables at hand.
pub(crate) fn create_cell_no_transaction(
    tables: &mut Tables,
    file_id: i32,
    content: &String,
    cell_type: &CellType,
    index: i32,
    found: &Vec<String>,
    now: Timestamp,
) -> (result: Result<i32, ServiceError>)
    requires
        old(tables)@.wf(),
    ensures
        delivers_id(
            old(tables)@,
            final(tables)@,
            result,
            created_cell(
                old(tables)@,
                file_id as int,
                content@,
                *cell_type,
                index as int,
                text_views(found@),
                now,
            ),
        ),
        final(tables)@.wf(),
{
    let ghost before = tables@;
    if tables.find_node(file_id).is_none() {
        return Err(ServiceError::NotFound);
    }
    if is_position_taken(tables, file_id, i32::MAX) {
        return Err(ServiceError::Persistence(StoreFault::PositionOutOfRange));
    }
    if tables.last_cell_id == i32::MAX {
        return Err(ServiceError::Persistence(StoreFault::IdsExhausted));
    }
    let id = tables.last_cell_id + 1;
    let added = lacking_rows(&tables.repetitions, id, *cell_type, found);
    proof {
        lemma_with_cell_wf(before, file_id as int, index as int, content@, *cell_type);
    }
    if added.len() > (i32::MAX - tables.last_repetition_id) as usize {
        return Err(ServiceError::Persistence(StoreFault::IdsExhausted));
    }
    shift_cells(tables, file_id, index, true);
    let ghost moved = tables@.cells;
    tables.cells.push(
        cell::Model { id, file_id, index, content: content.clone(), cell_type: *cell_type },
    );
    tables.last_cell_id = id;
    proof {
        assert(tables@ =~= before.with_cell(file_id as int, index as int, content@, *cell_type));
        lemma_with_cell_wf(before, file_id as int, index as int, content@, *cell_type);
    }
    match reconcile(tables, file_id, id, *cell_type, found, now) {
        Ok(()) => Ok(id),
        Err(error) => Err(error),
    }
}

/// Creates a cell at `index` of the file `file_id`, in whose content the
/// markers `found` occur, and gives it the repetitions that its type and its
/// markers ask for, fresh at `now`. The cells of the file at `index` and
/// after it move up by one. Returns the id of the cell.
pub fn create_cell_with_markers(
    store: &mut Store,
    file_id: i32,
    content: String,
    cell_type: CellType,
    index: i32,
    found: &Vec<String>,
    now: Timestamp,
) -> (result: Result<i32, ServiceError>)
    ensures
        delivers_id(
            old(store)@,
            final(store)@,
            result,
            created_cell(
                old(store)@,
                file_id as int,
                content@,
                cell_type,
                index as int,
                text_views(found@),
                now,
            ),
        ),
        final(store)@.wf(),
{
    let mut owned = store.take();
    let result = create_cell_no_transaction(
        &mut owned,
        file_id,
        &content,
        &cell_type,
        index,
        found,
        now,
    );
    store.replace(owned);
    result
}

/// Creates a cell at `index` of the file `file_id`, and gives it the
/// repetitions that its type and the markers in its content ask for, fresh
/// at the time of the call. The cells of the file at `index` and after it
/// move up by one. Returns the id of the cell.
pub fn create_cell(
    store: &mut Store,
    file_id: i32,
    content: String,
    cell_type: CellType,
    index: i32,
) -> (result: Result<i32, ServiceError>)
    ensures
        exists|now: Timestamp|
            delivers_id(
                old(store)@,
                final(store)@,
                result,
                #[trigger] created_cell(
                    old(store)@,
                    file_id as int,
                    content@,
                    cell_type,
                    index as int,
                    markers_of(cell_type, content@),
                    now,
                ),
            ),
        final(store)@.wf(),
{
    let found = find_markers(cell_type, content.as_str());
    let now = current_time();
    create_cell_with_markers(store, file_id, content, cell_type, index, &found, now)
}

/// What `delete_cell` leads to: the cell and its repetitions are gone, and
/// the cells that followed it in its file have moved down by one.
pub open spec fn deleted_cell(s: TablesView, cell_id: int) -> Result<TablesView, ServiceError> {
    let gone = s.cell(cell_id);
    if !s.has_cell(cell_id) {
        Err(ServiceError::NotFound)
    } else {
        Ok(
            TablesView {
                cells: s.cells.remove(s.cell_position(cell_id)).map_values(
                    shifted(gone.file_id, gone.index + 1, -1),
                ),
                repetitions: s.repetitions.filter(of_other_cells(cell_id)),
                ..s
            },
        )
    }
}

/// Without a cell and its repetitions the tables stay well formed.
pub proof fn lemma_without_cell_wf(s: TablesView, at: int)
    requires
        s.wf(),
        0 <= at < s.cells.len(),
    ensures
        (TablesView {
            cells: s.cells.remove(at),
            repetitions: s.repetitions.filter(of_other_cells(s.cells[at].id)),
            ..s
        }).wf(),
{
    let id = s.cells[at].id;
    let keep = of_other_cells(id);
    let cells = s.cells.remove(at);
    let rows = s.repetitions.filter(keep);
    let next = TablesView { cells, repetitions: rows, ..s };
    lemma_filter_keeps_order(s.repetitions, keep);
    assert forall|i: int| 0 <= i < cells.len() implies 1 <= (#[trigger] cells[i]).id
        <= next.last_cell_id && fits_i32(cells[i].index) && next.has_node(cells[i].file_id) by {
        if i < at {
            assert(s.has_node(s.cells[i].file_id));
        } else {
            assert(s.has_node(s.cells[i + 1].file_id));
        }
    }
    assert forall|i: int, j: int| 0 <= i < j < cells.len() implies (#[trigger] cells[i]).id < (
    #[trigger] cells[j]).id by {
        let a = if i < at { i } else { i + 1 };
        let b = if j < at { j } else { j + 1 };
        assert(s.cells[a].id < s.cells[b].id);
    }
    assert forall|i: int| 0 <= i < rows.len() implies 1 <= (#[trigger] rows[i]).id
        <= next.last_repetition_id && next.has_node(rows[i].file_id) && next.has_cell(
        rows[i].cell_id,
    ) by {
        let from = kept_from(s.repetitions, keep, i);
        assert(s.has_cell(s.repetitions[from].cell_id));
        let w = choose|w: int|
            0 <= w < s.cells.len() && (#[trigger] s.cells[w]).id == s.repetitions[from].cell_id;
        if w < at {
            assert(cells[w].id == rows[i].cell_id);
        } else {
            assert(cells[w - 1].id == rows[i].cell_id);
        }
    }
    assert forall|i: int, j: int| 0 <= i < j < rows.len() implies (#[trigger] rows[i]).id < (
    #[trigger] rows[j]).id by {
        let a = kept_from(s.repetitions, keep, i);
        let b = kept_from(s.repetitions, keep, j);
        assert(s.repetitions[a].id < s.repetitions[b].id);
    }
}

/// Deletes a cell from the tables at hand.
pub(crate) fn delete_cell_no_transaction(tables: &mut Tables, cell_id: i32) -> (result: Result<
    (),
    ServiceError,
>)
    requires
        old(tables)@.wf(),
    ensures
        delivers(old(tables)@, final(tables)@, result, deleted_cell(old(tables)@, cell_id as int)),
        final(tables)@.wf(),
{
    let ghost before = tables@;
    let ghost keep = of_other_cells(cell_id as int);
    let at = match tables.find_cell(cell_id) {
        Some(at) => at,
        None => {
            return Err(ServiceError::NotFound);
        },
    };
    proof {
        lemma_cell_at(before, at as int);
    }
    let gone = tables.cells.remove(at);
    assert(tables@.cells =~= before.cells.remove(at as int));
    drop_repetitions_of(tables, cell_id);
    proof {
        lemma_without_cell_wf(before, at as int);
    }
    if gone.index < i32::MAX {
        shift_cells(tables, gone.file_id, gone.index + 1, false);
    } else {
        assert(tables@.cells =~= tables@.cells.map_values(
            shifted(gone.file_id as int, gone.index + 1, -1),
        ));
    }
    Ok(())
}

/// Deletes the cell `cell_id` and its repetitions. The cells that followed
/// it in its file move down by one.
pub fn delete_cell(store: &mut Store, cell_id: i32) -> (result: Result<(), ServiceError>)
    ensures
        delivers(old(store)@, final(store)@, result, deleted_cell(old(store)@, cell_id as int)),
        final(store)@.wf(),
{
    let mut owned = store.take();
    let result = delete_cell_no_transaction(&mut owned, cell_id);
    store.replace(owned);
    result
}

/// The position that a cell at `old_index` takes when it is moved to
/// `new_index`: one less where it moves forward, because the cells after its
/// old place move down first.
pub open spec fn effective_target(old_index: int, new_index: int) -> int {
    if new_index > old_index {
        new_index - 1
    } else {
        new_index
    }
}

/// What `move_cell` leads to: the cells after the old place of the cell move
/// down by one, then the cells at its new place and after it move up by one,
/// and the cell takes its new place.
pub open spec fn moved_cell(s: TablesView, cell_id: int, new_index: int) -> Result<
    TablesView,
    ServiceError,
> {
    let cell = s.cell(cell_id);
    let target = effective_target(cell.index, new_index);
    if !s.has_cell(cell_id) {
        Err(ServiceError::NotFound)
    } else if cell.index == i32::MAX {
        Err(ServiceError::Persistence(StoreFault::PositionOutOfRange))
    } else {
        Ok(
            TablesView {
                cells: s.cells.map_values(shifted(cell.file_id, cell.index + 1, -1)).map_values(
                    shifted(cell.file_id, target, 1),
                ).map_values(placed(cell_id, target)),
                ..s
            },
        )
    }
}

/// Moves the cell `cell_id` to the position `new_index` of its file.
pub fn move_cell(store: &mut Store, cell_id: i32, new_index: i32) -> (result: Result<
    (),
    ServiceError,
>)
    ensures
        delivers(
            old(store)@,
            final(store)@,
            result,
            moved_cell(old(store)@, cell_id as int, new_index as int),
        ),
        final(store)@.wf(),
{
    let tables = store.tables();
    let ghost before = tables@;
    let at = match tables.find_cell(cell_id) {
        Some(at) => at,
        None => {
            return Err(ServiceError::NotFound);
        },
    };
    proof {
        lemma_cell_at(before, at as int);
    }
    let file_id = tables.cells[at].file_id;
    let old_index = tables.cells[at].index;
    if old_index == i32::MAX {
        return Err(ServiceError::Persistence(StoreFault::PositionOutOfRange));
    }
    let target = if new_index > old_index { new_index - 1 } else { new_index };
    let mut owned = store.take();
    shift_cells(&mut owned, file_id, old_index + 1, false);
    proof {
        let closed = owned@.cells;
        assert(!position_taken(closed, file_id as int, i32::MAX as int)) by {
            if position_taken(closed, file_id as int, i32::MAX as int) {
                let w = choose|w: int|
                    0 <= w < closed.len() && (#[trigger] closed[w]).file_id == file_id
                        && closed[w].index == i32::MAX;
                assert(fits_i32(before.cells[w].index));
            }
        }
    }
    shift_cells(&mut owned, file_id, target, true);
    let ghost opened = owned@;
    owned.cells[at].index = target;
    proof {
        assert(owned@.cells =~= opened.cells.map_values(placed(cell_id as int, target as int))) by {
            assert forall|i: int| 0 <= i < opened.cells.len() implies (
            #[trigger] owned@.cells[i]) == placed(cell_id as int, target as int)(
                opened.cells[i],
            ) by {
                if i != at {
                    if i < at {
                        assert(before.cells[i].id < before.cells[at as int].id);
                    } else {
                        assert(before.cells[at as int].id < before.cells[i].id);
                    }
                }
            }
        }
        assert forall|i: int| 0 <= i < owned@.cells.len() implies (#[trigger] owned@.cells[i]).id
            == opened.cells[i].id && owned@.cells[i].file_id == opened.cells[i].file_id
            && fits_i32(owned@.cells[i].index) by {
            assert(fits_i32(opened.cells[i].index));
        }
        lemma_renumbered_wf(opened, owned@.cells);
    }
    store.replace(owned);
    Ok(())
}

/// The change that gives the cell `cell_id` the content `content`.
pub open spec fn with_content(cell_id: int, content: Seq<char>) -> spec_fn(
    cell::ModelView,
) -> cell::ModelView {
    |row: cell::ModelView|
        if row.id == cell_id {
            cell::ModelView { content, ..row }
        } else {
            row
        }
}

/// What giving a cell new content leads to, where the markers `found` occur
/// in that content: the cell holds it, and has the repetitions that its type
/// and those markers ask for.
pub open spec fn updated_content(
    s: TablesView,
    cell_id: int,
    content: Seq<char>,
    found: Seq<Seq<char>>,
    now: Timestamp,
) -> Result<TablesView, ServiceError> {
    let cell = s.cell(cell_id);
    if !s.has_cell(cell_id) {
        Err(ServiceError::NotFound)
    } else {
        reconciled(
            TablesView { cells: s.cells.map_values(with_content(cell_id, content)), ..s },
            cell.file_id,
            cell_id,
            cell.cell_type,
            found,
            now,
        )
    }
}

/// What carrying out `requests` in turn leads to; the first that fails
/// decides.
pub open spec fn updated_contents(
    s: TablesView,
    requests: Seq<UpdateCellRequestView>,
    now: Timestamp,
) -> Result<TablesView, ServiceError>
    decreases requests.len(),
{
    if requests.len() == 0 {
        Ok(s)
    } else {
        match updated_contents(s, requests.drop_last(), now) {
            Err(error) => Err(error),
            Ok(mid) => updated_content(
                mid,
                requests.last().cell_id,
                requests.last().content,
                markers_of(mid.cell(requests.last().cell_id).cell_type, requests.last().content),
                now,
            ),
        }
    }
}

/// The requests in `rows` as the contracts see them.
pub open spec fn request_views(rows: Seq<UpdateCellRequest>) -> Seq<UpdateCellRequestView> {
    rows.map_values(|row: UpdateCellRequest| row@)
}

/// Once a request has failed, the requests after it change nothing.
pub proof fn lemma_failure_decides(
    s: TablesView,
    requests: Seq<UpdateCellRequestView>,
    upto: int,
    now: Timestamp,
)
    requires
        0 <= upto <= requests.len(),
        updated_contents(s, requests.take(upto), now) is Err,
    ensures
        updated_contents(s, requests, now) == updated_contents(s, requests.take(upto), now),
    decreases requests.len() - upto,
{
    if upto < requests.len() {
        assert(requests.take(upto + 1).drop_last() =~= requests.take(upto));
        lemma_failure_decides(s, requests, upto + 1, now);
    } else {
        assert(requests.take(upto) =~= requests);
    }
}

/// Gives a cell of the tables at hand new content.
pub(crate) fn update_content_no_transaction(
    tables: &mut Tables,
    cell_id: i32,
    content: &String,
    found: &Vec<String>,
    now: Timestamp,
) -> (result: Result<(), ServiceError>)
    requires
        old(tables)@.wf(),
    ensures
        delivers(
            old(tables)@,
            final(tables)@,
            result,
            updated_content(old(tables)@, cell_id as int, content@, text_views(found@), now),
        ),
        final(tables)@.wf(),
{
    let ghost before = tables@;
    let at = match tables.find_cell(cell_id) {
        Some(at) => at,
        None => {
            return Err(ServiceError::NotFound);
        },
    };
    proof {
        lemma_cell_at(before, at as int);
    }
    let file_id = tables.cells[at].file_id;
    let cell_type = tables.cells[at].cell_type;
    let added = lacking_rows(&tables.repetitions, cell_id, cell_type, found);
    let ghost changed = before.cells.map_values(with_content(cell_id as int, content@));
    proof {
        assert forall|i: int| 0 <= i < changed.len() implies (#[trigger] changed[i]).id
            == before.cells[i].id && changed[i].file_id == before.cells[i].file_id && fits_i32(
            changed[i].index,
        ) by {
            assert(fits_i32(before.cells[i].index));
        }
        lemma_renumbered_wf(before, changed);
        assert(changed[at as int].id == cell_id);
        assert(before.has_node(before.cells[at as int].file_id));
    }
    if added.len() > (i32::MAX - tables.last_repetition_id) as usize {
        return Err(ServiceError::Persistence(StoreFault::IdsExhausted));
    }
    tables.cells[at].content = content.clone();
    proof {
        assert(tables@.cells =~= changed) by {
            assert forall|i: int| 0 <= i < changed.len() implies (#[trigger] tables@.cells[i])
                == changed[i] by {
                if i < at {
                    assert(before.cells[i].id < before.cells[at as int].id);
                }
                if at < i {
                    assert(before.cells[at as int].id < before.cells[i].id);
                }
            }
        }
    }
    reconcile(tables, file_id, cell_id, cell_type, found, now)
}

/// Gives the cell `cell_id` the content `content`, in which the markers
/// `found` occur, and brings its repetitions in line with them; what is
/// added is fresh at `now`.
pub fn update_cell_content_with_markers(
    store: &mut Store,
    cell_id: i32,
    content: String,
    found: &Vec<String>,
    now: Timestamp,
) -> (result: Result<(), ServiceError>)
    ensures
        delivers(
            old(store)@,
            final(store)@,
            result,
            updated_content(old(store)@, cell_id as int, content@, text_views(found@), now),
        ),
        final(store)@.wf(),
{
    let mut owned = store.take();
    let result = update_content_no_transaction(&mut owned, cell_id, &content, found, now);
    store.replace(owned);
    result
}

/// Carries out `requests` in turn: each gives a cell new content and brings
/// its repetitions in line with the markers in it. Where one fails, none of
/// them takes place.
pub fn update_cells_contents(store: &mut Store, requests: Vec<UpdateCellRequest>) -> (result:
    Result<(), ServiceError>)
    ensures
        exists|now: Timestamp|
            delivers(
                old(store)@,
                final(store)@,
                result,
                #[trigger] updated_contents(old(store)@, request_views(requests@), now),
            ),
        final(store)@.wf(),
{
    let now = current_time();
    let mut owned = store.take();
    let backup = owned.duplicate();
    let ghost before = owned@;
    let ghost all = request_views(requests@);
    let mut k: usize = 0;
    assert(all.take(0) =~= Seq::<UpdateCellRequestView>::empty());
    while k < requests.len()
        invariant
            k <= requests@.len(),
            all == request_views(requests@),
            backup@ == before,
            before == old(store)@,
            before.wf(),
            owned@.wf(),
            store@ == TablesView::empty(),
            updated_contents(before, all.take(k as int), now) == Ok::<TablesView, ServiceError>(
                owned@,
            ),
        decreases requests@.len() - k,
    {
        let request = &requests[k];
        let ghost mid = owned@;
        proof {
            assert(all.take(k as int + 1).drop_last() =~= all.take(k as int));
            assert(all.take(k as int + 1).last() == request@);
        }
        let cell_type = match owned.find_cell(request.cell_id) {
            Some(at) => {
                proof {
                    lemma_cell_at(mid, at as int);
                }
                owned.cells[at].cell_type
            },
            None => CellType::Note,
        };
        let found = find_markers(cell_type, request.content.as_str());
        match update_content_no_transaction(
            &mut owned,
            request.cell_id,
            &request.content,
            &found,
            now,
        ) {
            Ok(()) => {},
            Err(error) => {
                proof {
                    assert(updated_contents(before, all.take(k as int + 1), now) == Err::<
                        TablesView,
                        ServiceError,
                    >(error));
                    lemma_failure_decides(before, all, k as int + 1, now);
                }
                store.replace(backup);
                return Err(error);
            },
        }
        k = k + 1;
    }
    assert(all.take(requests@.len() as int) =~= all);
    store.replace(owned);
    Ok(())
}

/// Gives the cell `cell_id` the content `content` and brings its repetitions
/// in line with the markers in it; what is added is fresh at the time of the
/// call.
pub fn update_cell_content(store: &mut Store, cell_id: i32, content: String) -> (result: Result<
    (),
    ServiceError,
>)
    ensures
        exists|now: Timestamp|
            delivers(
                old(store)@,
                final(store)@,
                result,
                #[trigger] updated_content(
                    old(store)@,
                    cell_id as int,
                    content@,
                    markers_of(old(store)@.cell(cell_id as int).cell_type, content@),
                    now,
                ),
            ),
        final(store)@.wf(),
{
    let tables = store.tables();
    let cell_type = match tables.find_cell(cell_id) {
        Some(at) => {
            proof {
                lemma_cell_at(tables@, at as int);
            }
            tables.cells[at].cell_type
        },
        None => {
            proof {
                let never = Timestamp { seconds: 0, nanos: 0 };
                assert(updated_content(
                    tables@,
                    cell_id as int,
                    content@,
                    markers_of(tables@.cell(cell_id as int).cell_type, content@),
                    never,
                ) == Err::<TablesView, ServiceError>(ServiceError::NotFound));
            }
            return Err(ServiceError::NotFound);
        },
    };
    let found = find_markers(cell_type, content.as_str());
    let now = current_time();
    update_cell_content_with_markers(store, cell_id, content, &found, now)
}

/// The test that keeps the cells of the file `file_id`.
pub open spec fn in_file(file_id: int) -> spec_fn(cell::ModelView) -> bool {
    |row: cell::ModelView| row.file_id == file_id
}

/// Whether `first` comes before `second` where cells are listed in order:
/// its position is lower, or the two share a position and its id is lower.
pub open spec fn stands_before(first: cell::ModelView, second: cell::ModelView) -> bool {
    first.index < second.index || (first.index == second.index && first.id < second.id)
}

/// Whether each of `cells` comes before those that follow it.
pub open spec fn in_order(cells: Seq<cell::ModelView>) -> bool {
    forall|i: int, j: int|
        0 <= i < j < cells.len() ==> stands_before(#[trigger] cells[i], #[trigger] cells[j])
}

/// The cells of the file `file_id`, the lowest position first; cells that
/// share a position come in the order of their ids.
pub fn get_file_cells_ordered_by_index(store: &Store, file_id: i32) -> (listed: Vec<cell::Model>)
    ensures
        in_order(cell_views(listed@)),
        cell_views(listed@).to_multiset() == store@.cells.filter(
            in_file(file_id as int),
        ).to_multiset(),
{
    let tables = store.tables();
    let ghost all = tables@.cells;
    let ghost wanted = in_file(file_id as int);
    let mut listed: Vec<cell::Model> = Vec::new();
    let mut i: usize = 0;
    proof {
        lemma_filter_empty(wanted);
        assert(all.take(0) =~= Seq::<cell::ModelView>::empty());
        assert(cell_views(listed@) =~= Seq::<cell::ModelView>::empty());
    }
    while i < tables.cells.len()
        invariant
            i <= tables.cells@.len(),
            all == tables@.cells,
            tables@.wf(),
            wanted == in_file(file_id as int),
            in_order(cell_views(listed@)),
            cell_views(listed@).to_multiset() == all.take(i as int).filter(wanted).to_multiset(),
            forall|k: int, j: int|
                0 <= k < listed@.len() && i <= j < all.len() ==> (#[trigger] cell_views(
                    listed@,
                )[k]).id < (#[trigger] all[j]).id,
        decreases tables.cells@.len() - i,
    {
        proof {
            lemma_filter_take_next(all, i as int, wanted);
        }
        let row = &tables.cells[i];
        assert(row@ == all[i as int]);
        if row.file_id == file_id {
            let ghost before = cell_views(listed@);
            let mut at: usize = 0;
            while at < listed.len() && (listed[at].index < row.index || (listed[at].index
                == row.index && listed[at].id < row.id))
                invariant
                    at <= listed@.len(),
                    before == cell_views(listed@),
                    forall|k: int| 0 <= k < at ==> stands_before(#[trigger] before[k], row@),
                decreases listed@.len() - at,
            {
                at = at + 1;
            }
            listed.insert(at, row.clone());
            proof {
                assert(cell_views(listed@) =~= before.insert(at as int, row@));
                to_multiset_insert(before, at as int, row@);
                to_multiset_build(all.take(i as int).filter(wanted), row@);
                assert forall|a: int, b: int| 0 <= a < b < listed@.len() implies stands_before(
                    #[trigger] cell_views(listed@)[a],
                    #[trigger] cell_views(listed@)[b],
                ) by {
                    if b == at {
                    } else if a == at {
                        assert(before[at as int].id < all[i as int].id);
                        assert(b - 1 >= at);
                        if b - 1 > at {
                            assert(stands_before(before[at as int], before[b - 1]));
                        }
                    } else {
                        let from_a = if a < at { a } else { a - 1 };
                        let from_b = if b < at { b } else { b - 1 };
                        assert(stands_before(before[from_a], before[from_b]));
                    }
                }
                assert forall|k: int, j: int|
                    0 <= k < listed@.len() && i + 1 <= j < all.len() implies (#[trigger] cell_views(
                        listed@,
                    )[k]).id < (#[trigger] all[j]).id by {
                    if k == at {
                        assert(all[i as int].id < all[j].id);
                    } else {
                        let from = if k < at { k } else { k - 1 };
                        assert(before[from].id < all[j].id);
                    }
                }
            }
        }
        i = i + 1;
    }
    assert(all.take(all.len() as int) =~= all);
    listed
}

/// The cells of the files `file_ids`: those of the first file in the order of
/// their ids, then those of the second, and so on.
pub open spec fn cells_of_files(cells: Seq<cell::ModelView>, file_ids: Seq<i32>) -> Seq<
    cell::ModelView,
>
    decreases file_ids.len(),
{
    if file_ids.len() == 0 {
        Seq::empty()
    } else {
        cells_of_files(cells, file_ids.drop_last()) + cells.filter(
            in_file(file_ids.last() as int),
        )
    }
}

/// The cells of the files `file_ids`, file by file.
pub fn get_cells_for_files(store: &Store, file_ids: Vec<i32>) -> (listed: Vec<cell::Model>)
    ensures
        cell_views(listed@) == cells_of_files(store@.cells, file_ids@),
{
    let tables = store.tables();
    let ghost all = tables@.cells;
    let mut listed: Vec<cell::Model> = Vec::new();
    let mut k: usize = 0;
    assert(file_ids@.take(0) =~= Seq::<i32>::empty());
    assert(cell_views(listed@) =~= Seq::<cell::ModelView>::empty());
    while k < file_ids.len()
        invariant
            k <= file_ids@.len(),
            all == tables@.cells,
            cell_views(listed@) == cells_of_files(all, file_ids@.take(k as int)),
        decreases file_ids@.len() - k,
    {
        let file_id = file_ids[k];
        let ghost wanted = in_file(file_id as int);
        let ghost so_far = cell_views(listed@);
        let mut i: usize = 0;
        proof {
            lemma_filter_empty(wanted);
            assert(all.take(0) =~= Seq::<cell::ModelView>::empty());
            assert(so_far + all.take(0).filter(wanted) =~= so_far);
        }
        while i < tables.cells.len()
            invariant
                i <= tables.cells@.len(),
                all == tables@.cells,
                wanted == in_file(file_id as int),
                cell_views(listed@) == so_far + all.take(i as int).filter(wanted),
            decreases tables.cells@.len() - i,
        {
            proof {
                lemma_filter_take_next(all, i as int, wanted);
            }
            let ghost before = cell_views(listed@);
            if tables.cells[i].file_id == file_id {
                listed.push(tables.cells[i].clone());
                assert(cell_views(listed@) =~= before.push(all[i as int]));
                assert(so_far + all.take(i as int).filter(wanted).push(all[i as int]) =~= (so_far
                    + all.take(i as int).filter(wanted)).push(all[i as int]));
            }
            i = i + 1;
        }
        proof {
            assert(all.take(all.len() as int) =~= all);
            assert(file_ids@.take(k as int + 1).drop_last() =~= file_ids@.take(k as int));
        }
        k = k + 1;
    }
    assert(file_ids@.take(file_ids@.len() as int) =~= file_ids@);
    listed
}

} // verus!
