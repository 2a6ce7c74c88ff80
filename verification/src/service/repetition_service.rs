//! The repetitions by which cells are studied: which of them a cell must
//! have, which of them are due, and in which order they are presented.

use vstd::prelude::*;
use crate::clock::current_time;
use crate::clock::Timestamp;
use crate::cloze::find_markers;
use crate::cloze::markers_of;
use crate::entity::cell::CellType;
use crate::entity::repetition;
use crate::entity::repetition::State;
use crate::error::delivers;
use crate::model::file_repetitions_count::FileRepetitionCounts;
use crate::shuffle::arranged;
use crate::shuffle::shuffle_for_study;
use crate::shuffle::shuffled_order;
use crate::shuffle::study_seed;
use crate::store::lemma_cell_at;
use crate::error::ServiceError;
use crate::error::StoreFault;
use crate::seqs::kept_from;
use crate::seqs::lemma_filter_empty;
use crate::seqs::lemma_filter_keeps_order;
use crate::seqs::lemma_filter_take_next;
use crate::seqs::text_views;
use crate::store::repetition_views;
use crate::store::Store;
use crate::store::Tables;
use crate::store::TablesView;

verus! {

/// The markers of `found`, each once, in the order in which they first occur.
pub open spec fn first_occurrences(found: Seq<Seq<char>>) -> Seq<Seq<char>>
    decreases found.len(),
{
    if found.len() == 0 {
        Seq::empty()
    } else if found.drop_last().contains(found.last()) {
        first_occurrences(found.drop_last())
    } else {
        first_occurrences(found.drop_last()).push(found.last())
    }
}

/// Whether a repetition of the cell `cell_id` among `rows` stands for the
/// marker `marker`.
pub open spec fn marker_stored(rows: Seq<repetition::ModelView>, cell_id: int, marker: Seq<char>) -> bool {
    exists|i: int|
        0 <= i < rows.len() && (#[trigger] rows[i]).cell_id == cell_id
            && rows[i].additional_content == Some(marker)
}

/// The test that keeps the markers for which the cell `cell_id` has no
/// repetition among `rows`.
pub open spec fn is_unstored(rows: Seq<repetition::ModelView>, cell_id: int) -> spec_fn(
    Seq<char>,
) -> bool {
    |marker: Seq<char>| !marker_stored(rows, cell_id, marker)
}

/// Whether a cell of the type `cell_type`, in whose content the markers
/// `found` occur, is studied by the repetition `row` of that cell.
pub open spec fn is_required(cell_type: CellType, found: Seq<Seq<char>>, row: repetition::ModelView) -> bool {
    match cell_type {
        CellType::Note => false,
        CellType::FlashCard | CellType::TrueFalse => true,
        CellType::Cloze => row.additional_content is Some && found.contains(
            row.additional_content->0,
        ),
    }
}

/// The test that keeps the repetitions of other cells, and those of the cell
/// `cell_id` by which it is still studied.
pub open spec fn stays(cell_id: int, cell_type: CellType, found: Seq<Seq<char>>) -> spec_fn(
    repetition::ModelView,
) -> bool {
    |row: repetition::ModelView| row.cell_id != cell_id || is_required(cell_type, found, row)
}

/// Whether a repetition among `rows` belongs to the cell `cell_id`.
pub open spec fn has_repetitions(rows: Seq<repetition::ModelView>, cell_id: int) -> bool {
    exists|i: int| 0 <= i < rows.len() && (#[trigger] rows[i]).cell_id == cell_id
}

/// What a cell lacks: nothing for a note; one repetition without a marker for
/// a flash card or a true-or-false cell that has no repetition yet; for a
/// cloze cell one repetition for each marker of `found` that none stands for.
pub open spec fn lacking(
    rows: Seq<repetition::ModelView>,
    cell_id: int,
    cell_type: CellType,
    found: Seq<Seq<char>>,
) -> Seq<Option<Seq<char>>> {
    match cell_type {
        CellType::Note => Seq::empty(),
        CellType::FlashCard | CellType::TrueFalse => if has_repetitions(rows, cell_id) {
            Seq::empty()
        } else {
            seq![None]
        },
        CellType::Cloze => first_occurrences(found).filter(is_unstored(rows, cell_id)).map_values(
            |marker: Seq<char>| Some(marker),
        ),
    }
}

/// Fresh repetitions of the cell `cell_id` for `markers`, with the ids from
/// `first_id` on.
pub open spec fn fresh_repetitions(
    first_id: int,
    file_id: int,
    cell_id: int,
    markers: Seq<Option<Seq<char>>>,
    now: Timestamp,
) -> Seq<repetition::ModelView> {
    Seq::new(
        markers.len(),
        |k: int| repetition::ModelView::fresh(first_id + k, file_id, cell_id, markers[k], now),
    )
}

/// What reconciling leads to for the cell `cell_id` of the file `file_id`,
/// which is of the type `cell_type` and in whose content the markers `found`
/// occur: the repetitions by which the cell is no longer studied are gone,
/// those by which it still is are as they were, and those that it lacks are
/// added, fresh at `now`.
pub open spec fn reconciled(
    s: TablesView,
    file_id: int,
    cell_id: int,
    cell_type: CellType,
    found: Seq<Seq<char>>,
    now: Timestamp,
) -> Result<TablesView, ServiceError> {
    let kept = s.repetitions.filter(stays(cell_id, cell_type, found));
    let added = lacking(s.repetitions, cell_id, cell_type, found);
    if !s.has_node(file_id) || !s.has_cell(cell_id) {
        Err(ServiceError::NotFound)
    } else if s.last_repetition_id + added.len() > i32::MAX {
        Err(ServiceError::Persistence(StoreFault::IdsExhausted))
    } else {
        Ok(
            TablesView {
                repetitions: kept + fresh_repetitions(
                    s.last_repetition_id + 1,
                    file_id,
                    cell_id,
                    added,
                    now,
                ),
                last_repetition_id: s.last_repetition_id + added.len(),
                ..s
            },
        )
    }
}

/// Reconciling keeps the tables well formed.
pub proof fn lemma_reconciled_wf(
    s: TablesView,
    file_id: int,
    cell_id: int,
    cell_type: CellType,
    found: Seq<Seq<char>>,
    now: Timestamp,
)
    requires
        s.wf(),
        reconciled(s, file_id, cell_id, cell_type, found, now) is Ok,
    ensures
        reconciled(s, file_id, cell_id, cell_type, found, now)->Ok_0.wf(),
{
    let next = reconciled(s, file_id, cell_id, cell_type, found, now)->Ok_0;
    let keep = stays(cell_id, cell_type, found);
    let kept = s.repetitions.filter(keep);
    lemma_filter_keeps_order(s.repetitions, keep);
    assert forall|i: int| 0 <= i < next.repetitions.len() implies 1 <= (
    #[trigger] next.repetitions[i]).id <= next.last_repetition_id && next.has_node(
        next.repetitions[i].file_id,
    ) && next.has_cell(next.repetitions[i].cell_id) by {
        if i < kept.len() {
            let from = kept_from(s.repetitions, keep, i);
        }
    }
    assert forall|i: int, j: int| 0 <= i < j < next.repetitions.len() implies (
    #[trigger] next.repetitions[i]).id < (#[trigger] next.repetitions[j]).id by {
        if j < kept.len() {
            let a = kept_from(s.repetitions, keep, i);
            let b = kept_from(s.repetitions, keep, j);
            assert(s.repetitions[a].id < s.repetitions[b].id);
        } else if i < kept.len() {
            let a = kept_from(s.repetitions, keep, i);
            assert(s.repetitions[a].id <= s.last_repetition_id);
        }
    }
}

/// The markers in `rows` as the contracts see them.
pub open spec fn marker_views(rows: Seq<Option<String>>) -> Seq<Option<Seq<char>>> {
    rows.map_values(
        |row: Option<String>|
            match row {
                Some(text) => Some(text@),
                None => None,
            },
    )
}

/// Whether `text` is among the first `upto` of `texts`.
fn texts_contain(texts: &Vec<String>, upto: usize, text: &String) -> (found: bool)
    requires
        upto <= texts@.len(),
    ensures
        found == text_views(texts@).take(upto as int).contains(text@),
{
    let mut i: usize = 0;
    while i < upto
        invariant
            i <= upto <= texts@.len(),
            forall|j: int| 0 <= j < i ==> text_views(texts@).take(upto as int)[j] != text@,
        decreases upto - i,
    {
        if texts[i] == *text {
            assert(text_views(texts@).take(upto as int)[i as int] == text@);
            return true;
        }
        i = i + 1;
    }
    false
}

/// Whether a repetition of the cell `cell_id` among `rows` stands for `marker`.
fn marker_is_stored(rows: &Vec<repetition::Model>, cell_id: i32, marker: &String) -> (stored: bool)
    ensures
        stored == marker_stored(repetition_views(rows@), cell_id as int, marker@),
{
    let mut i: usize = 0;
    while i < rows.len()
        invariant
            i <= rows@.len(),
            forall|j: int|
                0 <= j < i ==> !((#[trigger] repetition_views(rows@)[j]).cell_id == cell_id
                    && repetition_views(rows@)[j].additional_content == Some(marker@)),
        decreases rows@.len() - i,
    {
        if rows[i].cell_id == cell_id {
            let same = match &rows[i].additional_content {
                Some(text) => *text == *marker,
                None => false,
            };
            if same {
                assert(repetition_views(rows@)[i as int].additional_content == Some(marker@));
                return true;
            }
        }
        i = i + 1;
    }
    false
}

/// Whether a repetition among `rows` belongs to the cell `cell_id`.
fn cell_has_repetitions(rows: &Vec<repetition::Model>, cell_id: i32) -> (any: bool)
    ensures
        any == has_repetitions(repetition_views(rows@), cell_id as int),
{
    let mut i: usize = 0;
    while i < rows.len()
        invariant
            i <= rows@.len(),
            forall|j: int| 0 <= j < i ==> (#[trigger] repetition_views(rows@)[j]).cell_id != cell_id,
        decreases rows@.len() - i,
    {
        if rows[i].cell_id == cell_id {
            assert(repetition_views(rows@)[i as int].cell_id == cell_id);
            return true;
        }
        i = i + 1;
    }
    false
}

/// The markers for which a cloze cell lacks a repetition.
fn lacking_markers(rows: &Vec<repetition::Model>, cell_id: i32, found: &Vec<String>) -> (added: Vec<
    Option<String>,
>)
    ensures
        marker_views(added@) == lacking(
            repetition_views(rows@),
            cell_id as int,
            CellType::Cloze,
            text_views(found@),
        ),
{
    let ghost all = text_views(found@);
    let ghost unstored = is_unstored(repetition_views(rows@), cell_id as int);
    let ghost wrap = |marker: Seq<char>| Some(marker);
    let mut added: Vec<Option<String>> = Vec::new();
    let mut k: usize = 0;
    proof {
        lemma_filter_empty(unstored);
        assert(all.take(0) =~= Seq::<Seq<char>>::empty());
        assert(marker_views(added@) =~= first_occurrences(all.take(0)).filter(
            unstored,
        ).map_values(wrap));
    }
    while k < found.len()
        invariant
            k <= found@.len(),
            all == text_views(found@),
            unstored == is_unstored(repetition_views(rows@), cell_id as int),
            wrap == |marker: Seq<char>| Some(marker),
            marker_views(added@) == first_occurrences(all.take(k as int)).filter(
                unstored,
            ).map_values(wrap),
        decreases found@.len() - k,
    {
        let ghost before = marker_views(added@);
        let ghost front = first_occurrences(all.take(k as int));
        proof {
            assert(all.take(k as int + 1).drop_last() =~= all.take(k as int));
            front.lemma_filter_push(all[k as int], unstored);
        }
        if !texts_contain(found, k, &found[k]) && !marker_is_stored(rows, cell_id, &found[k]) {
            added.push(Some(found[k].clone()));
            assert(marker_views(added@) =~= before.push(Some(all[k as int])));
            assert(front.filter(unstored).push(all[k as int]).map_values(wrap) =~= front.filter(
                unstored,
            ).map_values(wrap).push(Some(all[k as int])));
        }
        k = k + 1;
    }
    assert(all.take(found@.len() as int) =~= all);
    added
}

/// The markers of the repetitions that a cell lacks; no marker stands for the
/// one repetition of a flash card or a true-or-false cell.
pub(crate) fn lacking_rows(
    rows: &Vec<repetition::Model>,
    cell_id: i32,
    cell_type: CellType,
    found: &Vec<String>,
) -> (added: Vec<Option<String>>)
    ensures
        marker_views(added@) == lacking(
            repetition_views(rows@),
            cell_id as int,
            cell_type,
            text_views(found@),
        ),
{
    let added: Vec<Option<String>> = match cell_type {
        CellType::Note => Vec::new(),
        CellType::Cloze => lacking_markers(rows, cell_id, found),
        _ => {
            let mut single: Vec<Option<String>> = Vec::new();
            if !cell_has_repetitions(rows, cell_id) {
                single.push(None);
            }
            single
        },
    };
    assert(marker_views(added@) =~= lacking(
        repetition_views(rows@),
        cell_id as int,
        cell_type,
        text_views(found@),
    ));
    added
}

/// Whether the cell is still studied by `row`, a repetition of it.
fn row_is_required(cell_type: CellType, found: &Vec<String>, row: &repetition::Model) -> (required:
    bool)
    ensures
        required == is_required(cell_type, text_views(found@), row@),
{
    match cell_type {
        CellType::Note => false,
        CellType::FlashCard => true,
        CellType::TrueFalse => true,
        CellType::Cloze => match &row.additional_content {
            Some(marker) => {
                assert(text_views(found@).take(found@.len() as int) =~= text_views(found@));
                texts_contain(found, found.len(), marker)
            },
            None => false,
        },
    }
}

/// Brings the repetitions of one cell in line with its type and with the
/// markers found in its content.
pub(crate) fn reconcile(
    tables: &mut Tables,
    file_id: i32,
    cell_id: i32,
    cell_type: CellType,
    found: &Vec<String>,
    now: Timestamp,
) -> (result: Result<(), ServiceError>)
    requires
        old(tables)@.wf(),
    ensures
        delivers(
            old(tables)@,
            final(tables)@,
            result,
            reconciled(
                old(tables)@,
                file_id as int,
                cell_id as int,
                cell_type,
                text_views(found@),
                now,
            ),
        ),
        final(tables)@.wf(),
{
    let ghost before = tables@;
    let ghost markers = text_views(found@);
    let ghost keep = stays(cell_id as int, cell_type, markers);
    if tables.find_node(file_id).is_none() || tables.find_cell(cell_id).is_none() {
        return Err(ServiceError::NotFound);
    }
    let added = lacking_rows(&tables.repetitions, cell_id, cell_type, found);
    if added.len() > (i32::MAX - tables.last_repetition_id) as usize {
        return Err(ServiceError::Persistence(StoreFault::IdsExhausted));
    }
    let mut rows: Vec<repetition::Model> = Vec::new();
    core::mem::swap(&mut tables.repetitions, &mut rows);
    let ghost all_rows = repetition_views(rows@);
    proof {
        lemma_filter_empty(keep);
        assert(all_rows.take(0) =~= Seq::<repetition::ModelView>::empty());
    }
    for row in it: rows
        invariant
            all_rows == repetition_views(it.seq()),
            all_rows == before.repetitions,
            markers == text_views(found@),
            keep == stays(cell_id as int, cell_type, markers),
            tables.files == old(tables).files,
            tables.cells == old(tables).cells,
            tables.reviews == old(tables).reviews,
            tables.last_file_id == old(tables).last_file_id,
            tables.last_cell_id == old(tables).last_cell_id,
            tables.last_repetition_id == old(tables).last_repetition_id,
            tables.last_review_id == old(tables).last_review_id,
            tables@.repetitions == all_rows.take(it.index() as int).filter(keep),
    {
        proof {
            lemma_filter_take_next(all_rows, it.index() as int, keep);
        }
        let ghost kept = tables@.repetitions;
        if row.cell_id != cell_id || row_is_required(cell_type, found, &row) {
            tables.repetitions.push(row);
            assert(tables@.repetitions =~= kept.push(row@));
        }
    }
    assert(all_rows.take(all_rows.len() as int) =~= all_rows);
    let ghost kept = tables@.repetitions;
    let ghost lacks = marker_views(added@);
    let ghost first_id = before.last_repetition_id + 1;
    let mut k: usize = 0;
    assert(tables@.repetitions =~= kept + fresh_repetitions(
        first_id,
        file_id as int,
        cell_id as int,
        lacks.take(0),
        now,
    ));
    while k < added.len()
        invariant
            k <= added@.len(),
            lacks == marker_views(added@),
            first_id == before.last_repetition_id + 1,
            before.last_repetition_id + added@.len() <= i32::MAX,
            0 <= before.last_repetition_id,
            tables.files == old(tables).files,
            tables.cells == old(tables).cells,
            tables.reviews == old(tables).reviews,
            tables.last_file_id == old(tables).last_file_id,
            tables.last_cell_id == old(tables).last_cell_id,
            tables.last_review_id == old(tables).last_review_id,
            tables.last_repetition_id == before.last_repetition_id + k,
            tables@.repetitions == kept + fresh_repetitions(
                first_id,
                file_id as int,
                cell_id as int,
                lacks.take(k as int),
                now,
            ),
        decreases added@.len() - k,
    {
        let ghost so_far = tables@.repetitions;
        let id = tables.last_repetition_id + 1;
        let additional_content = match &added[k] {
            Some(marker) => Some(marker.clone()),
            None => None,
        };
        tables.repetitions.push(
            repetition::Model {
                id,
                file_id,
                cell_id,
                due: now,
                stability: 0,
                difficulty: 0,
                elapsed_days: 0,
                scheduled_days: 0,
                reps: 0,
                lapses: 0,
                state: State::New,
                last_review: now,
                additional_content,
            },
        );
        tables.last_repetition_id = id;
        assert(tables@.repetitions =~= so_far.push(
            repetition::ModelView::fresh(
                first_id + k,
                file_id as int,
                cell_id as int,
                lacks[k as int],
                now,
            ),
        ));
        assert(tables@.repetitions =~= kept + fresh_repetitions(
            first_id,
            file_id as int,
            cell_id as int,
            lacks.take(k as int + 1),
            now,
        ));
        k = k + 1;
    }
    assert(lacks.take(added@.len() as int) =~= lacks);
    proof {
        lemma_reconciled_wf(before, file_id as int, cell_id as int, cell_type, markers, now);
    }
    Ok(())
}

/// Brings the repetitions of the cell `cell_id` of the file `file_id` in
/// line with its type and with the markers `found` in its content. What is
/// added is fresh at `now`.
pub fn reconcile_repetitions(
    store: &mut Store,
    file_id: i32,
    cell_id: i32,
    cell_type: &CellType,
    found: &Vec<String>,
    now: Timestamp,
) -> (result: Result<(), ServiceError>)
    ensures
        delivers(
            old(store)@,
            final(store)@,
            result,
            reconciled(
                old(store)@,
                file_id as int,
                cell_id as int,
                *cell_type,
                text_views(found@),
                now,
            ),
        ),
        final(store)@.wf(),
{
    let mut owned = store.take();
    let result = reconcile(&mut owned, file_id, cell_id, *cell_type, found, now);
    store.replace(owned);
    result
}

/// Brings the repetitions of the cell `cell_id` of the file `file_id` in
/// line with its type and with the markers in `content`. What is added is
/// fresh at the time of the call.
pub fn update_repetitions_for_cell(
    store: &mut Store,
    file_id: i32,
    cell_id: i32,
    cell_type: &CellType,
    content: &str,
) -> (result: Result<(), ServiceError>)
    ensures
        exists|now: Timestamp|
            delivers(
                old(store)@,
                final(store)@,
                result,
                #[trigger] reconciled(
                    old(store)@,
                    file_id as int,
                    cell_id as int,
                    *cell_type,
                    markers_of(*cell_type, content@),
                    now,
                ),
            ),
        final(store)@.wf(),
{
    let found = find_markers(*cell_type, content);
    let now = current_time();
    reconcile_repetitions(store, file_id, cell_id, cell_type, &found, now)
}

/// The test that keeps the repetitions of the cells other than `cell_id`.
pub open spec fn of_other_cells(cell_id: int) -> spec_fn(repetition::ModelView) -> bool {
    |row: repetition::ModelView| row.cell_id != cell_id
}

/// Without the repetitions of a cell the tables stay well formed.
pub proof fn lemma_without_repetitions_wf(s: TablesView, cell_id: int)
    requires
        s.wf(),
    ensures
        (TablesView { repetitions: s.repetitions.filter(of_other_cells(cell_id)), ..s }).wf(),
{
    let keep = of_other_cells(cell_id);
    let rows = s.repetitions.filter(keep);
    let next = TablesView { repetitions: rows, ..s };
    lemma_filter_keeps_order(s.repetitions, keep);
    assert forall|i: int| 0 <= i < rows.len() implies 1 <= (#[trigger] rows[i]).id
        <= next.last_repetition_id && next.has_node(rows[i].file_id) && next.has_cell(
        rows[i].cell_id,
    ) by {
        let from = kept_from(s.repetitions, keep, i);
    }
    assert forall|i: int, j: int| 0 <= i < j < rows.len() implies (#[trigger] rows[i]).id < (
    #[trigger] rows[j]).id by {
        let a = kept_from(s.repetitions, keep, i);
        let b = kept_from(s.repetitions, keep, j);
        assert(s.repetitions[a].id < s.repetitions[b].id);
    }
}

/// Drops the repetitions of the cell `cell_id`.
pub(crate) fn drop_repetitions_of(tables: &mut Tables, cell_id: i32)
    ensures
        final(tables)@ == (TablesView {
            repetitions: old(tables)@.repetitions.filter(of_other_cells(cell_id as int)),
            ..old(tables)@
        }),
{
    let ghost before = tables@;
    let ghost keep = of_other_cells(cell_id as int);
    let mut rows: Vec<repetition::Model> = Vec::new();
    core::mem::swap(&mut tables.repetitions, &mut rows);
    let ghost all_rows = repetition_views(rows@);
    proof {
        lemma_filter_empty(keep);
        assert(all_rows.take(0) =~= Seq::<repetition::ModelView>::empty());
    }
    for row in it: rows
        invariant
            all_rows == repetition_views(it.seq()),
            all_rows == before.repetitions,
            keep == of_other_cells(cell_id as int),
            tables.files == old(tables).files,
            tables.cells == old(tables).cells,
            tables.reviews == old(tables).reviews,
            tables.last_file_id == old(tables).last_file_id,
            tables.last_cell_id == old(tables).last_cell_id,
            tables.last_repetition_id == old(tables).last_repetition_id,
            tables.last_review_id == old(tables).last_review_id,
            tables@.repetitions == all_rows.take(it.index() as int).filter(keep),
    {
        proof {
            lemma_filter_take_next(all_rows, it.index() as int, keep);
        }
        let ghost kept = tables@.repetitions;
        if row.cell_id != cell_id {
            tables.repetitions.push(row);
            assert(tables@.repetitions =~= kept.push(row@));
        }
    }
    assert(all_rows.take(all_rows.len() as int) =~= all_rows);
}

/// The test that keeps the repetitions of the file `file_id` that are in the
/// state `state` and due at `now`.
pub open spec fn is_due(file_id: int, state: State, now: Timestamp) -> spec_fn(
    repetition::ModelView,
) -> bool {
    |row: repetition::ModelView|
        row.file_id == file_id && row.state == state && row.due.is_at_or_before(now)
}

/// How many repetitions of the file `file_id` are in the state `state` and
/// due at `now`.
pub open spec fn due_count(
    rows: Seq<repetition::ModelView>,
    file_id: int,
    state: State,
    now: Timestamp,
) -> nat {
    rows.filter(is_due(file_id, state, now)).len()
}

/// Rows whose ids rise from 1 on are no more than the highest id.
pub proof fn lemma_rows_bounded(s: TablesView, i: int)
    requires
        s.repetitions_wf(),
        0 <= i < s.repetitions.len(),
    ensures
        s.repetitions[i].id >= i + 1,
    decreases i,
{
    if i > 0 {
        lemma_rows_bounded(s, i - 1);
        assert(s.repetitions[i - 1].id < s.repetitions[i].id);
    }
}

/// The number of repetitions of the file `file_id` that are due at `now`, by
/// state.
pub open spec fn study_counts(rows: Seq<repetition::ModelView>, file_id: int, now: Timestamp) -> FileRepetitionCounts {
    FileRepetitionCounts {
        new: due_count(rows, file_id, State::New, now) as i32,
        learning: due_count(rows, file_id, State::Learning, now) as i32,
        relearning: due_count(rows, file_id, State::Relearning, now) as i32,
        review: due_count(rows, file_id, State::Review, now) as i32,
    }
}

/// The number of repetitions of the file `file_id` that are due at `now`, by
/// state.
pub fn get_study_repetition_counts_at(store: &Store, file_id: i32, now: Timestamp) -> (counts:
    FileRepetitionCounts)
    ensures
        counts == study_counts(store@.repetitions, file_id as int, now),
        counts.new == due_count(store@.repetitions, file_id as int, State::New, now),
        counts.learning == due_count(store@.repetitions, file_id as int, State::Learning, now),
        counts.relearning == due_count(
            store@.repetitions,
            file_id as int,
            State::Relearning,
            now,
        ),
        counts.review == due_count(store@.repetitions, file_id as int, State::Review, now),
{
    let tables = store.tables();
    let ghost all = tables@.repetitions;
    let ghost of_new = is_due(file_id as int, State::New, now);
    let ghost of_learning = is_due(file_id as int, State::Learning, now);
    let ghost of_relearning = is_due(file_id as int, State::Relearning, now);
    let ghost of_review = is_due(file_id as int, State::Review, now);
    let mut counts = FileRepetitionCounts { new: 0, learning: 0, relearning: 0, review: 0 };
    let mut i: usize = 0;
    proof {
        lemma_filter_empty(of_new);
        lemma_filter_empty(of_learning);
        lemma_filter_empty(of_relearning);
        lemma_filter_empty(of_review);
        assert(all.take(0) =~= Seq::<repetition::ModelView>::empty());
    }
    while i < tables.repetitions.len()
        invariant
            i <= tables.repetitions@.len(),
            all == tables@.repetitions,
            tables@.wf(),
            of_new == is_due(file_id as int, State::New, now),
            of_learning == is_due(file_id as int, State::Learning, now),
            of_relearning == is_due(file_id as int, State::Relearning, now),
            of_review == is_due(file_id as int, State::Review, now),
            counts.new == all.take(i as int).filter(of_new).len(),
            counts.learning == all.take(i as int).filter(of_learning).len(),
            counts.relearning == all.take(i as int).filter(of_relearning).len(),
            counts.review == all.take(i as int).filter(of_review).len(),
            counts.new + counts.learning + counts.relearning + counts.review <= i,
        decreases tables.repetitions@.len() - i,
    {
        proof {
            lemma_filter_take_next(all, i as int, of_new);
            lemma_filter_take_next(all, i as int, of_learning);
            lemma_filter_take_next(all, i as int, of_relearning);
            lemma_filter_take_next(all, i as int, of_review);
            lemma_rows_bounded(tables@, i as int);
        }
        let row = &tables.repetitions[i];
        assert(row@ == all[i as int]);
        if row.file_id == file_id && row.due.at_or_before(&now) {
            match row.state {
                State::New => {
                    counts.new = counts.new + 1;
                },
                State::Learning => {
                    counts.learning = counts.learning + 1;
                },
                State::Relearning => {
                    counts.relearning = counts.relearning + 1;
                },
                State::Review => {
                    counts.review = counts.review + 1;
                },
            }
        }
        i = i + 1;
    }
    assert(all.take(all.len() as int) =~= all);
    counts
}

/// The number of repetitions of the file `file_id` that are due at the time
/// of the call, by state.
pub fn get_study_repetition_counts(store: &Store, file_id: i32) -> (counts: FileRepetitionCounts)
    ensures
        exists|now: Timestamp|
            {
                &&& counts.new == #[trigger] due_count(
                    store@.repetitions,
                    file_id as int,
                    State::New,
                    now,
                )
                &&& counts.learning == due_count(
                    store@.repetitions,
                    file_id as int,
                    State::Learning,
                    now,
                )
                &&& counts.relearning == due_count(
                    store@.repetitions,
                    file_id as int,
                    State::Relearning,
                    now,
                )
                &&& counts.review == due_count(
                    store@.repetitions,
                    file_id as int,
                    State::Review,
                    now,
                )
            },
{
    let now = current_time();
    get_study_repetition_counts_at(store, file_id, now)
}

/// The test that keeps the repetitions of the file `file_id`.
pub open spec fn of_file(file_id: int) -> spec_fn(repetition::ModelView) -> bool {
    |row: repetition::ModelView| row.file_id == file_id
}

/// The repetitions of the file `file_id` in the order in which they are
/// studied: shuffled, and the same every time for the same number of them.
pub open spec fn study_order(rows: Seq<repetition::ModelView>, file_id: int) -> Seq<
    repetition::ModelView,
> {
    let own = rows.filter(of_file(file_id));
    arranged(own, shuffled_order(study_seed(), own.len()))
}

/// The repetitions of the file `file_id`, shuffled for study.
pub fn get_file_repetitions(store: &Store, file_id: i32) -> (listed: Vec<repetition::Model>)
    ensures
        repetition_views(listed@) == study_order(store@.repetitions, file_id as int),
{
    let tables = store.tables();
    let ghost all = tables@.repetitions;
    let ghost wanted = of_file(file_id as int);
    let mut listed: Vec<repetition::Model> = Vec::new();
    let mut i: usize = 0;
    proof {
        lemma_filter_empty(wanted);
        assert(all.take(0) =~= Seq::<repetition::ModelView>::empty());
        assert(repetition_views(listed@) =~= Seq::<repetition::ModelView>::empty());
    }
    while i < tables.repetitions.len()
        invariant
            i <= tables.repetitions@.len(),
            all == tables@.repetitions,
            wanted == of_file(file_id as int),
            repetition_views(listed@) == all.take(i as int).filter(wanted),
        decreases tables.repetitions@.len() - i,
    {
        proof {
            lemma_filter_take_next(all, i as int, wanted);
        }
        let ghost before = repetition_views(listed@);
        if tables.repetitions[i].file_id == file_id {
            listed.push(tables.repetitions[i].clone());
            assert(repetition_views(listed@) =~= before.push(all[i as int]));
        }
        i = i + 1;
    }
    assert(all.take(all.len() as int) =~= all);
    let ghost own = listed@;
    shuffle_for_study(&mut listed);
    assert(repetition_views(listed@) =~= arranged(
        repetition_views(own),
        shuffled_order(study_seed(), own.len()),
    ));
    listed
}

/// The repetitions of the files `file_ids`, file by file, those of each file
/// shuffled for study.
pub open spec fn study_order_of_files(rows: Seq<repetition::ModelView>, file_ids: Seq<i32>) -> Seq<
    repetition::ModelView,
>
    decreases file_ids.len(),
{
    if file_ids.len() == 0 {
        Seq::empty()
    } else {
        study_order_of_files(rows, file_ids.drop_last()) + study_order(
            rows,
            file_ids.last() as int,
        )
    }
}

/// The repetitions of the files `file_ids`, file by file, those of each file
/// shuffled for study.
pub fn get_repetitions_for_files(store: &Store, file_ids: Vec<i32>) -> (listed: Vec<
    repetition::Model,
>)
    ensures
        repetition_views(listed@) == study_order_of_files(store@.repetitions, file_ids@),
{
    let mut listed: Vec<repetition::Model> = Vec::new();
    let mut k: usize = 0;
    assert(file_ids@.take(0) =~= Seq::<i32>::empty());
    assert(repetition_views(listed@) =~= Seq::<repetition::ModelView>::empty());
    while k < file_ids.len()
        invariant
            k <= file_ids@.len(),
            repetition_views(listed@) == study_order_of_files(
                store@.repetitions,
                file_ids@.take(k as int),
            ),
        decreases file_ids@.len() - k,
    {
        let ghost before = repetition_views(listed@);
        let mut own = get_file_repetitions(store, file_ids[k]);
        let ghost added = repetition_views(own@);
        listed.append(&mut own);
        proof {
            assert(repetition_views(listed@) =~= before + added);
            assert(file_ids@.take(k as int + 1).drop_last() =~= file_ids@.take(k as int));
        }
        k = k + 1;
    }
    assert(file_ids@.take(file_ids@.len() as int) =~= file_ids@);
    listed
}

/// What resetting the repetitions of a cell leads to, where the markers
/// `found` occur in its content: the repetitions that it had are gone, and it
/// has those that its type and its markers ask for, all of them fresh at
/// `now`.
pub open spec fn reset(s: TablesView, cell_id: int, found: Seq<Seq<char>>, now: Timestamp) -> Result<
    TablesView,
    ServiceError,
> {
    let cell = s.cell(cell_id);
    if !s.has_cell(cell_id) {
        Err(ServiceError::NotFound)
    } else {
        reconciled(
            TablesView { repetitions: s.repetitions.filter(of_other_cells(cell_id)), ..s },
            cell.file_id,
            cell_id,
            cell.cell_type,
            found,
            now,
        )
    }
}

/// Replaces the repetitions of the cell `cell_id`, in whose content the
/// markers `found` occur, by fresh ones.
pub fn reset_repetitions_with_markers(
    store: &mut Store,
    cell_id: i32,
    found: &Vec<String>,
    now: Timestamp,
) -> (result: Result<(), ServiceError>)
    ensures
        delivers(
            old(store)@,
            final(store)@,
            result,
            reset(old(store)@, cell_id as int, text_views(found@), now),
        ),
        final(store)@.wf(),
{
    let tables = store.tables();
    let (file_id, cell_type) = match tables.find_cell(cell_id) {
        Some(at) => {
            proof {
                lemma_cell_at(tables@, at as int);
            }
            (tables.cells[at].file_id, tables.cells[at].cell_type)
        },
        None => {
            return Err(ServiceError::NotFound);
        },
    };
    let mut owned = store.take();
    let backup = owned.duplicate();
    drop_repetitions_of(&mut owned, cell_id);
    proof {
        lemma_without_repetitions_wf(backup@, cell_id as int);
    }
    match reconcile(&mut owned, file_id, cell_id, cell_type, found, now) {
        Ok(()) => {
            store.replace(owned);
            Ok(())
        },
        Err(error) => {
            store.replace(backup);
            Err(error)
        },
    }
}

/// Replaces the repetitions of the cell `cell_id` by fresh ones, as its type
/// and the markers in its content ask for.
pub fn reset_repetitions_for_cell(store: &mut Store, cell_id: i32) -> (result: Result<
    (),
    ServiceError,
>)
    ensures
        exists|now: Timestamp|
            delivers(
                old(store)@,
                final(store)@,
                result,
                #[trigger] reset(
                    old(store)@,
                    cell_id as int,
                    markers_of(
                        old(store)@.cell(cell_id as int).cell_type,
                        old(store)@.cell(cell_id as int).content,
                    ),
                    now,
                ),
            ),
        final(store)@.wf(),
{
    let tables = store.tables();
    let now = current_time();
    let found = match tables.find_cell(cell_id) {
        Some(at) => {
            proof {
                lemma_cell_at(tables@, at as int);
            }
            find_markers(tables.cells[at].cell_type, tables.cells[at].content.as_str())
        },
        None => {
            proof {
                assert(reset(
                    tables@,
                    cell_id as int,
                    markers_of(
                        tables@.cell(cell_id as int).cell_type,
                        tables@.cell(cell_id as int).content,
                    ),
                    now,
                ) == Err::<TablesView, ServiceError>(ServiceError::NotFound));
            }
            return Err(ServiceError::NotFound);
        },
    };
    reset_repetitions_with_markers(store, cell_id, &found, now)
}

} // verus!
