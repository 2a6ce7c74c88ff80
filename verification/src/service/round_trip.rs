//! What comes back when an exported item is imported: the nodes at the same
//! paths below the new place, the cells and their order, with new ids and
//! with repetitions that start afresh.

use vstd::prelude::*;
use crate::clock::Timestamp;
use crate::cloze::markers_of;
use crate::dto::exported_item::ExportedCellView;
use crate::dto::exported_item::ExportedItemType;
use crate::dto::exported_item::ExportedItemView;
use crate::entity::cell;
use crate::entity::repetition::State;
use crate::path::SEPARATOR;
use crate::path::is_below;
use crate::path::is_cut;
use crate::path::is_stored_path;
use crate::path::join;
use crate::path::last_separator;
use crate::path::lemma_last_separator;
use crate::path::lemma_last_separator_is;
use crate::path::parent_path;
use crate::path::trim_end;
use crate::path::trim_separators;
use crate::path::trim_start;
use crate::sanitize::purified;
use crate::seqs::kept_from;
use crate::seqs::lemma_filter_every;
use crate::seqs::lemma_filter_first_only;
use crate::seqs::lemma_filter_keeps_order;
use crate::seqs::lemma_filter_none;
use crate::service::cell_service::in_file;
use crate::service::cell_service::in_order;
use crate::service::cell_service::lemma_with_cell_wf;
use crate::service::cell_service::shifted;
use crate::service::export_import_service::as_exported;
use crate::service::export_import_service::imported;
use crate::service::export_import_service::imported_cells;
use crate::service::export_import_service::imported_children;
use crate::service::export_import_service::imported_into;
use crate::service::export_import_service::is_child_of;
use crate::service::export_import_service::is_export_of;
use crate::service::export_import_service::is_listing_of;
use crate::service::file_service::created_file;
use crate::service::file_service::created_folder;
use crate::service::file_service::missing_folders;
use crate::service::hierarchy::lemma_with_new_folders_wf;
use crate::service::repetition_service::fresh_repetitions;
use crate::service::repetition_service::lacking;
use crate::service::repetition_service::lemma_reconciled_wf;
use crate::service::repetition_service::stays;
use crate::service::subtree::grows_into;
use crate::service::subtree::lemma_below_is_transitive;
use crate::service::subtree::lemma_child_is_below;
use crate::service::subtree::lemma_cut_of_parent;
use crate::service::subtree::lemma_export_stays;
use crate::service::subtree::lemma_grows_on;
use crate::service::subtree::lemma_joined_child;
use crate::service::subtree::lemma_no_folder_missing;
use crate::service::subtree::lemma_only_target_missing;
use crate::service::subtree::lemma_path_persists;
use crate::service::subtree::lemma_siblings;
use crate::service::subtree::nothing_below;
use crate::service::subtree::way_exists;
use crate::store::TablesView;

verus! {

/// The cells that importing the first `upto` of `cells` into the file
/// `file_id` creates, with the ids from `first_id` on.
pub open spec fn imported_rows(
    first_id: int,
    file_id: int,
    cells: Seq<ExportedCellView>,
    upto: nat,
) -> Seq<cell::ModelView> {
    Seq::new(
        upto,
        |j: int|
            cell::ModelView {
                id: first_id + j,
                file_id,
                index: j,
                content: purified(cells[j].content),
                cell_type: cells[j].cell_type,
            },
    )
}

/// Whether the repetitions of `s` from the place `from` on are fresh at
/// `now` and belong to cells with ids above `above`.
pub open spec fn fresh_from(s: TablesView, from: int, above: int, now: Timestamp) -> bool {
    forall|i: int|
        from <= i < s.repetitions.len() ==> {
            let row = #[trigger] s.repetitions[i];
            &&& row.state == State::New
            &&& row.reps == 0
            &&& row.lapses == 0
            &&& row.due == now
            &&& row.last_review == now
            &&& row.cell_id > above
        }
}

/// Importing cells into a file without cells adds them after the cells that
/// were there, at the positions at which they are listed, and adds nothing
/// but fresh repetitions of them.
pub proof fn lemma_imported_cells(
    s: TablesView,
    file_id: int,
    cells: Seq<ExportedCellView>,
    upto: nat,
    now: Timestamp,
)
    requires
        s.wf(),
        upto <= cells.len(),
        forall|i: int| 0 <= i < s.cells.len() ==> (#[trigger] s.cells[i]).file_id != file_id,
        imported_cells(s, file_id, cells, upto, now) is Ok,
    ensures
        ({
            let after = imported_cells(s, file_id, cells, upto, now)->Ok_0;
            &&& after.wf()
            &&& after.files == s.files
            &&& after.last_file_id == s.last_file_id
            &&& after.last_cell_id == s.last_cell_id + upto
            &&& after.cells == s.cells + imported_rows(s.last_cell_id + 1, file_id, cells, upto)
            &&& after.repetitions.len() >= s.repetitions.len()
            &&& after.repetitions.take(s.repetitions.len() as int) == s.repetitions
            &&& fresh_from(after, s.repetitions.len() as int, s.last_cell_id, now)
        }),
    decreases upto,
{
    let after = imported_cells(s, file_id, cells, upto, now)->Ok_0;
    if upto == 0 {
        assert(after.cells =~= s.cells + imported_rows(s.last_cell_id + 1, file_id, cells, 0));
        assert(after.repetitions.take(s.repetitions.len() as int) =~= s.repetitions);
    } else {
        let before = (upto - 1) as nat;
        lemma_imported_cells(s, file_id, cells, before, now);
        let mid = imported_cells(s, file_id, cells, before, now)->Ok_0;
        let listed = cells[upto - 1];
        let clean = purified(listed.content);
        let found = markers_of(listed.cell_type, clean);
        let id = mid.last_cell_id + 1;
        let with_cell = mid.with_cell(file_id, upto - 1, clean, listed.cell_type);
        let rows = imported_rows(s.last_cell_id + 1, file_id, cells, before);
        assert(mid.cells.map_values(shifted(file_id, upto - 1, 1)) =~= mid.cells) by {
            assert forall|i: int| 0 <= i < mid.cells.len() implies shifted(file_id, upto - 1, 1)(
                #[trigger] mid.cells[i],
            ) == mid.cells[i] by {
                if i < s.cells.len() {
                    assert(mid.cells[i] == s.cells[i]);
                } else {
                    assert(mid.cells[i] == rows[i - s.cells.len()]);
                }
            }
        }
        assert(after.cells =~= s.cells + imported_rows(s.last_cell_id + 1, file_id, cells, upto));
        lemma_with_cell_wf(mid, file_id, upto - 1, clean, listed.cell_type);
        lemma_reconciled_wf(with_cell, file_id, id, listed.cell_type, found, now);
        let keep = stays(id, listed.cell_type, found);
        assert forall|i: int| 0 <= i < with_cell.repetitions.len() implies keep(
            #[trigger] with_cell.repetitions[i],
        ) by {
            assert(mid.has_cell(mid.repetitions[i].cell_id));
            let w = choose|w: int|
                0 <= w < mid.cells.len() && (#[trigger] mid.cells[w]).id
                    == mid.repetitions[i].cell_id;
            assert(mid.cells[w].id <= mid.last_cell_id);
        }
        lemma_filter_every(with_cell.repetitions, keep);
        let added = lacking(with_cell.repetitions, id, listed.cell_type, found);
        let fresh = fresh_repetitions(mid.last_repetition_id + 1, file_id, id, added, now);
        assert(after.repetitions == mid.repetitions + fresh);
        assert(after.repetitions.take(s.repetitions.len() as int) =~= mid.repetitions.take(
            s.repetitions.len() as int,
        ));
        assert forall|i: int| s.repetitions.len() <= i < after.repetitions.len() implies {
            let row = #[trigger] after.repetitions[i];
            &&& row.state == State::New
            &&& row.reps == 0
            &&& row.lapses == 0
            &&& row.due == now
            &&& row.last_review == now
            &&& row.cell_id > s.last_cell_id
        } by {
            if i < mid.repetitions.len() {
                assert(after.repetitions[i] == mid.repetitions[i]);
            } else {
                assert(after.repetitions[i] == fresh[i - mid.repetitions.len()]);
            }
        }
    }
}

/// A path that is joined of a folder and a name needs no trimming.
pub proof fn lemma_trim_joined(parent: Seq<char>, name: Seq<char>)
    requires
        parent.len() == 0 || is_stored_path(parent),
        is_stored_path(name),
    ensures
        trim_separators(parent + seq![SEPARATOR] + name) == join(parent, name),
        is_stored_path(join(parent, name)),
{
    let whole = parent + seq![SEPARATOR] + name;
    assert(trim_start(name) == name);
    assert(trim_end(name) == name);
    if parent.len() == 0 {
        assert(whole.first() == SEPARATOR);
        assert(whole.drop_first() =~= name);
        assert(trim_start(whole) == trim_start(whole.drop_first()));
    } else {
        assert(whole.first() == parent.first());
        assert(whole.last() == name.last());
        assert(trim_start(whole) == whole);
        assert(trim_end(whole) == whole);
    }
}

/// A file that was imported exports as the item that it was imported from,
/// where cleaning leaves the content of its cells as it is: the file stands
/// at the path of the item below the folder, its cells hold what the item
/// lists, in that order, and every repetition that came with them is fresh.
pub proof fn law_imported_file_exports_alike(
    t: TablesView,
    item: ExportedItemView,
    parent: Seq<char>,
    now: Timestamp,
)
    requires
        t.wf(),
        item.item_type == ExportedItemType::File,
        item.cells is Some,
        item.children is None,
        is_stored_path(item.path),
        parent.len() == 0 || is_stored_path(parent),
        forall|i: int|
            0 <= i < item.cells->0.len() ==> purified((#[trigger] item.cells->0[i]).content)
                == item.cells->0[i].content,
        imported(t, item, parent, now) is Ok,
    ensures
        ({
            let after = imported(t, item, parent, now)->Ok_0;
            let file = after.files.last();
            &&& after.wf()
            &&& after.files.len() > 0
            &&& !file.is_folder
            &&& file.path == join(parent, item.path)
            &&& file.id > t.last_file_id
            &&& is_export_of(item, after, file, file.path.len() - item.path.len())
            &&& after.repetitions.take(t.repetitions.len() as int) == t.repetitions
            &&& fresh_from(after, t.repetitions.len() as int, t.last_cell_id, now)
        }),
{
    let path = parent + seq![SEPARATOR] + item.path;
    let cells = item.cells->0;
    lemma_trim_joined(parent, item.path);
    let trimmed = trim_separators(path);
    let (with_file, file_id) = created_file(t, path)->Ok_0;
    let with_folders = t.with_folders(parent_path(trimmed));
    crate::service::hierarchy::lemma_created_file_wf(t, path);
    assert forall|i: int| 0 <= i < with_file.cells.len() implies (
    #[trigger] with_file.cells[i]).file_id != file_id by {
        assert(t.has_node(t.cells[i].file_id));
        let w = choose|w: int|
            0 <= w < t.files.len() && (#[trigger] t.files[w]).id == t.cells[i].file_id;
        assert(t.files[w].id <= t.last_file_id);
    }
    lemma_imported_cells(with_file, file_id, cells, cells.len(), now);
    let after = imported(t, item, parent, now)->Ok_0;
    let file = after.files.last();
    assert(file == with_file.files[with_folders.files.len() as int]);
    let rows = imported_rows(with_file.last_cell_id + 1, file_id, cells, cells.len());
    let own = in_file(file_id);
    lemma_filter_none(with_file.cells, own);
    lemma_filter_every(rows, own);
    Seq::filter_distributes_over_add(with_file.cells, rows, own);
    assert(after.cells.filter(own) =~= rows);
    assert(rows.map_values(as_exported()) =~= cells);
    assert(in_order(rows));
    assert(is_listing_of(cells, after.cells.filter(own)));
    assert(file.path.subrange(file.path.len() - item.path.len(), file.path.len() as int)
        =~= item.path);
}

/// Importing a file makes the store grow: by the folders on the way that
/// were missing, by the file, and by its cells.
pub proof fn lemma_imported_file_grows(
    t: TablesView,
    item: ExportedItemView,
    parent: Seq<char>,
    now: Timestamp,
)
    requires
        t.wf(),
        item.item_type == ExportedItemType::File,
        item.cells is Some,
        is_stored_path(item.path),
        parent.len() == 0 || is_stored_path(parent),
        imported(t, item, parent, now) is Ok,
    ensures
        grows_into(t, imported(t, item, parent, now)->Ok_0),
        imported(t, item, parent, now)->Ok_0.files.len() == t.files.len() + missing_folders(
            t.files,
            parent_path(join(parent, item.path)),
        ).len() + 1,
{
    let path = parent + seq![SEPARATOR] + item.path;
    let cells = item.cells->0;
    lemma_trim_joined(parent, item.path);
    let (with_file, file_id) = created_file(t, path)->Ok_0;
    crate::service::hierarchy::lemma_created_file_wf(t, path);
    assert forall|i: int| 0 <= i < with_file.cells.len() implies (
    #[trigger] with_file.cells[i]).file_id != file_id by {
        assert(t.has_node(t.cells[i].file_id));
        let w = choose|w: int|
            0 <= w < t.files.len() && (#[trigger] t.files[w]).id == t.cells[i].file_id;
        assert(t.files[w].id <= t.last_file_id);
    }
    lemma_imported_cells(with_file, file_id, cells, cells.len(), now);
    let after = imported(t, item, parent, now)->Ok_0;
    let rows = imported_rows(with_file.last_cell_id + 1, file_id, cells, cells.len());
    assert(after.files.take(t.files.len() as int) =~= t.files);
    assert(after.cells.take(t.cells.len() as int) =~= t.cells);
    assert forall|i: int| t.cells.len() <= i < after.cells.len() implies (
    #[trigger] after.cells[i]).file_id > t.last_file_id by {
        assert(after.cells[i] == rows[i - t.cells.len()]);
    }
}

/// Whether `item` is shaped as an export is: every path can be stored, a
/// file lists cells and a folder children, each child stands directly in the
/// folder that lists it, and cleaning leaves the content of every cell as it
/// is.
pub open spec fn is_well_shaped(item: ExportedItemView) -> bool
    decreases item,
{
    &&& is_stored_path(item.path)
    &&& match item.item_type {
        ExportedItemType::File => {
            &&& item.cells is Some
            &&& item.children is None
            &&& forall|i: int|
                0 <= i < item.cells->0.len() ==> purified((#[trigger] item.cells->0[i]).content)
                    == item.cells->0[i].content
        },
        ExportedItemType::Folder => {
            &&& item.cells is None
            &&& item.children is Some
            &&& forall|i: int|
                0 <= i < item.children->0.len() ==> is_well_shaped(
                    #[trigger] item.children->0[i],
                ) && parent_path(item.children->0[i].path) == item.path
        },
    }
}

/// Whether `after` is `before` with `item` imported below the folder at
/// `parent`: the store has grown by the node of the item and by what lies
/// below it, the node exports as the item, and the repetitions that came are
/// fresh.
pub open spec fn is_imported_as(
    item: ExportedItemView,
    parent: Seq<char>,
    before: TablesView,
    after: TablesView,
    now: Timestamp,
) -> bool {
    let target = join(parent, item.path);
    let at = before.files.len() as int;
    &&& after.wf()
    &&& grows_into(before, after)
    &&& after.files.len() > before.files.len()
    &&& after.files[at].path == target
    &&& after.files[at].id > before.last_file_id
    &&& after.files[at].is_folder == (item.item_type == ExportedItemType::Folder)
    &&& forall|i: int|
        at < i < after.files.len() ==> item.item_type == ExportedItemType::Folder && is_below(
            (#[trigger] after.files[i]).path,
            target,
        )
    &&& is_export_of(item, after, after.files[at], target.len() - item.path.len())
    &&& fresh_from(after, before.repetitions.len() as int, before.last_cell_id, now)
}

/// Whether `after` is `folder_state` with the first `upto` children of `item`
/// imported: the nodes that stand directly in the folder of the item are
/// those of the children, in their order, and each exports as its child.
pub open spec fn are_children_imported(
    item: ExportedItemView,
    parent: Seq<char>,
    upto: nat,
    folder_state: TablesView,
    after: TablesView,
    now: Timestamp,
) -> bool {
    let target = join(parent, item.path);
    let below = after.files.filter(is_child_of(target));
    let first = folder_state.files.len() as int;
    &&& after.wf()
    &&& grows_into(folder_state, after)
    &&& forall|i: int|
        first <= i < after.files.len() ==> is_below((#[trigger] after.files[i]).path, target)
    &&& forall|i: int|
        first <= i < after.files.len() ==> parent_path((#[trigger] after.files[i]).path) == target
            || exists|j: int|
            first <= j < after.files.len() && (#[trigger] after.files[j]).is_folder && parent_path(
                after.files[j].path,
            ) == target && is_below(after.files[i].path, after.files[j].path)
    &&& below.len() == upto
    &&& forall|k: int|
        0 <= k < upto ==> is_export_of(
            item.children->0[k],
            after,
            #[trigger] below[k],
            target.len() - item.path.len(),
        )
    &&& fresh_from(after, folder_state.repetitions.len() as int, folder_state.last_cell_id, now)
}

/// Making the one folder that is missing on a way adds it at the end of
/// the nodes, with a new id, and nothing else.
pub proof fn lemma_folder_made(s: TablesView, target: Seq<char>)
    requires
        s.wf(),
        is_stored_path(target),
        way_exists(s, target),
        !s.folder_exists(target),
        nothing_below(s.files, target),
        s.last_file_id < i32::MAX,
    ensures
        ({
            let made = s.with_folders(target);
            let at = s.files.len() as int;
            &&& made.wf()
            &&& grows_into(s, made)
            &&& made.files.len() == at + 1
            &&& made.files[at].path == target
            &&& made.files[at].is_folder
            &&& made.files[at].id > s.last_file_id
            &&& made.cells == s.cells
            &&& made.repetitions == s.repetitions
            &&& made.last_cell_id == s.last_cell_id
            &&& made.folder_exists(target)
            &&& nothing_below(made.files, target)
            &&& way_exists(made, target)
        }),
{
    lemma_only_target_missing(s, target);
    let made = s.with_folders(target);
    assert(made == s.with_new_folders(seq![target]));
    lemma_with_new_folders_wf(s, seq![target]);
    assert(made.files =~= s.files.push(made.files[s.files.len() as int]));
    assert(made.files.take(s.files.len() as int) =~= s.files);
    assert(made.cells.take(s.cells.len() as int) =~= s.cells);
    assert(made.repetitions.take(s.repetitions.len() as int) =~= s.repetitions);
    assert(nothing_below(made.files, target)) by {
        assert forall|i: int| 0 <= i < made.files.len() implies !is_below(
            (#[trigger] made.files[i]).path,
            target,
        ) by {
            if i < s.files.len() {
                assert(made.files[i] == s.files[i]);
            }
        }
    }
    assert(way_exists(made, target)) by {
        assert forall|i: int| #[trigger]
            is_cut(parent_path(target), i) implies made.folder_exists(
            parent_path(target).take(i),
        ) by {
            lemma_path_persists(s, made, parent_path(target).take(i), true);
        }
    }
}

/// A file that was imported, below a folder the way to which exists, is the
/// one node by which the store has grown.
pub proof fn lemma_file_is_imported(
    s: TablesView,
    item: ExportedItemView,
    parent: Seq<char>,
    now: Timestamp,
)
    requires
        s.wf(),
        is_well_shaped(item),
        item.item_type == ExportedItemType::File,
        parent.len() == 0 || is_stored_path(parent),
        way_exists(s, join(parent, item.path)),
        imported(s, item, parent, now) is Ok,
    ensures
        is_imported_as(item, parent, s, imported(s, item, parent, now)->Ok_0, now),
{
    lemma_trim_joined(parent, item.path);
    law_imported_file_exports_alike(s, item, parent, now);
    lemma_imported_file_grows(s, item, parent, now);
    lemma_no_folder_missing(s, join(parent, item.path));
}

/// A folder that was made, and whose children were then imported, is
/// imported: the store has grown by its node and by what lies below it.
pub proof fn lemma_folder_is_imported(
    s: TablesView,
    item: ExportedItemView,
    parent: Seq<char>,
    after: TablesView,
    now: Timestamp,
)
    requires
        s.wf(),
        is_well_shaped(item),
        item.item_type == ExportedItemType::Folder,
        parent.len() == 0 || is_stored_path(parent),
        way_exists(s, join(parent, item.path)),
        nothing_below(s.files, join(parent, item.path)),
        !s.folder_exists(join(parent, item.path)),
        s.last_file_id < i32::MAX,
        are_children_imported(
            item,
            parent,
            item.children->0.len(),
            s.with_folders(join(parent, item.path)),
            after,
            now,
        ),
    ensures
        is_imported_as(item, parent, s, after, now),
{
    let target = join(parent, item.path);
    let at = s.files.len() as int;
    lemma_trim_joined(parent, item.path);
    lemma_folder_made(s, target);
    let with_folder = s.with_folders(target);
    lemma_grows_on(s, with_folder, after);
    assert(after.files.take(with_folder.files.len() as int)[at] == with_folder.files[at]);
    assert(target.subrange(target.len() - item.path.len(), target.len() as int) =~= item.path);
}

/// Importing an item that is shaped as an export is, below a folder the way
/// to which exists and, for a folder, below whose place nothing lies, makes
/// the store grow by a node that exports as the item.
pub proof fn lemma_imported_item(
    s: TablesView,
    item: ExportedItemView,
    parent: Seq<char>,
    now: Timestamp,
)
    requires
        s.wf(),
        is_well_shaped(item),
        parent.len() == 0 || is_stored_path(parent),
        way_exists(s, join(parent, item.path)),
        item.item_type == ExportedItemType::Folder ==> nothing_below(
            s.files,
            join(parent, item.path),
        ),
        imported(s, item, parent, now) is Ok,
    ensures
        is_imported_as(item, parent, s, imported(s, item, parent, now)->Ok_0, now),
    decreases item, (if item.children is Some { item.children->0.len() } else { 0 }) + 1,
{
    let target = join(parent, item.path);
    lemma_trim_joined(parent, item.path);
    let after = imported(s, item, parent, now)->Ok_0;
    match item.item_type {
        ExportedItemType::File => {
            lemma_file_is_imported(s, item, parent, now);
        },
        ExportedItemType::Folder => {
            let children = item.children->0;
            assert(created_folder(s, parent + seq![SEPARATOR] + item.path) is Ok);
            assert(!s.folder_exists(target));
            lemma_only_target_missing(s, target);
            assert(s.with_folders(target) == s.with_new_folders(seq![target]));
            assert(s.with_folders(target).last_file_id == s.last_file_id + 1);
            lemma_folder_made(s, target);
            let with_folder = s.with_folders(target);
            assert(imported(s, item, parent, now) == imported_children(
                with_folder,
                item,
                children.len(),
                parent,
                now,
            ));
            lemma_imported_children(with_folder, item, children.len(), parent, now);
            lemma_folder_is_imported(s, item, parent, after, now);
        },
    }
}

/// Where the children of a folder are imported one after the other, the
/// place of the next child is vacant: nothing lies below it.
pub proof fn lemma_place_is_vacant(
    item: ExportedItemView,
    parent: Seq<char>,
    done: nat,
    folder_state: TablesView,
    mid: TablesView,
    place: Seq<char>,
    now: Timestamp,
)
    requires
        is_stored_path(join(parent, item.path)),
        is_stored_path(place),
        parent_path(place) == join(parent, item.path),
        nothing_below(folder_state.files, join(parent, item.path)),
        are_children_imported(item, parent, done, folder_state, mid, now),
        !mid.folder_exists(place),
    ensures
        nothing_below(mid.files, place),
{
    let target = join(parent, item.path);
    let first = folder_state.files.len() as int;
    lemma_child_is_below(place);
    assert forall|i: int| 0 <= i < mid.files.len() implies !is_below(
        (#[trigger] mid.files[i]).path,
        place,
    ) by {
        if is_below(mid.files[i].path, place) {
            lemma_below_is_transitive(mid.files[i].path, place, target);
            if i < first {
                assert(mid.files.take(first)[i] == folder_state.files[i]);
            } else {
                assert(is_stored_path(mid.files[i].path));
                if parent_path(mid.files[i].path) == target {
                    lemma_siblings(mid.files[i].path, place, mid.files[i].path);
                } else {
                    let j = choose|j: int|
                        first <= j < mid.files.len() && (#[trigger] mid.files[j]).is_folder
                            && parent_path(mid.files[j].path) == target && is_below(
                            mid.files[i].path,
                            mid.files[j].path,
                        );
                    assert(is_stored_path(mid.files[j].path));
                    lemma_siblings(mid.files[j].path, place, mid.files[i].path);
                    assert(mid.files[j].path == place);
                }
            }
        }
    }
}

/// Where the way to a folder exists and the folder stands in the store, the
/// way to what the folder holds exists, in every store that the store grows
/// into.
pub proof fn lemma_way_goes_on(
    folder_state: TablesView,
    mid: TablesView,
    target: Seq<char>,
    place: Seq<char>,
)
    requires
        is_stored_path(target),
        parent_path(place) == target,
        way_exists(folder_state, target),
        folder_state.folder_exists(target),
        grows_into(folder_state, mid),
    ensures
        way_exists(mid, place),
{
    assert forall|i: int| #[trigger] is_cut(target, i) implies mid.folder_exists(
        target.take(i),
    ) by {
        if i == target.len() {
            assert(target.take(i) =~= target);
            lemma_path_persists(folder_state, mid, target, true);
        } else {
            lemma_cut_of_parent(target, i);
            assert(folder_state.folder_exists(parent_path(target).take(i)));
            lemma_path_persists(folder_state, mid, target.take(i), true);
        }
    }
}

/// The nodes that came with one more child lie below the folder, each
/// directly in it or below a folder that stands directly in it.
pub proof fn lemma_step_nodes(
    first: int,
    mid: TablesView,
    after: TablesView,
    target: Seq<char>,
    place: Seq<char>,
)
    requires
        0 <= first <= mid.files.len() < after.files.len(),
        after.files.take(mid.files.len() as int) == mid.files,
        is_below(place, target),
        parent_path(place) == target,
        after.files[mid.files.len() as int].path == place,
        forall|i: int|
            mid.files.len() < i < after.files.len() ==> after.files[mid.files.len() as int].is_folder
                && is_below((#[trigger] after.files[i]).path, place),
        forall|i: int|
            first <= i < mid.files.len() ==> is_below((#[trigger] mid.files[i]).path, target),
        forall|i: int|
            first <= i < mid.files.len() ==> parent_path((#[trigger] mid.files[i]).path) == target
                || exists|j: int|
                first <= j < mid.files.len() && (#[trigger] mid.files[j]).is_folder && parent_path(
                    mid.files[j].path,
                ) == target && is_below(mid.files[i].path, mid.files[j].path),
    ensures
        forall|i: int|
            first <= i < after.files.len() ==> is_below((#[trigger] after.files[i]).path, target),
        forall|i: int|
            first <= i < after.files.len() ==> parent_path((#[trigger] after.files[i]).path)
                == target || exists|j: int|
                first <= j < after.files.len() && (#[trigger] after.files[j]).is_folder
                    && parent_path(after.files[j].path) == target && is_below(
                    after.files[i].path,
                    after.files[j].path,
                ),
{
    let added = mid.files.len() as int;
    assert forall|i: int| first <= i < after.files.len() implies is_below(
        (#[trigger] after.files[i]).path,
        target,
    ) by {
        if i < added {
            assert(after.files.take(added)[i] == mid.files[i]);
        } else if i > added {
            lemma_below_is_transitive(after.files[i].path, place, target);
        }
    }
    assert forall|i: int| first <= i < after.files.len() implies parent_path(
        (#[trigger] after.files[i]).path,
    ) == target || exists|j: int|
        first <= j < after.files.len() && (#[trigger] after.files[j]).is_folder && parent_path(
            after.files[j].path,
        ) == target && is_below(after.files[i].path, after.files[j].path) by {
        if i < added {
            assert(after.files.take(added)[i] == mid.files[i]);
            if parent_path(mid.files[i].path) != target {
                let j = choose|j: int|
                    first <= j < mid.files.len() && (#[trigger] mid.files[j]).is_folder
                        && parent_path(mid.files[j].path) == target && is_below(
                        mid.files[i].path,
                        mid.files[j].path,
                    );
                assert(after.files.take(added)[j] == mid.files[j]);
                assert(after.files[j].is_folder && parent_path(after.files[j].path) == target
                    && is_below(after.files[i].path, after.files[j].path));
            }
        } else if i > added {
            let j = added;
            assert(is_below(after.files[i].path, after.files[j].path));
            assert(after.files[j].is_folder);
            assert(parent_path(after.files[j].path) == target);
        }
    }
}

/// The nodes that stand directly in the folder after one more child was
/// imported are those that stood there, and the node of the child.
pub proof fn lemma_step_children(mid: TablesView, after: TablesView, target: Seq<char>)
    requires
        after.wf(),
        is_stored_path(target),
        mid.files.len() < after.files.len(),
        after.files.take(mid.files.len() as int) == mid.files,
        parent_path(after.files[mid.files.len() as int].path) == target,
        forall|i: int|
            mid.files.len() < i < after.files.len() ==> is_below(
                (#[trigger] after.files[i]).path,
                after.files[mid.files.len() as int].path,
            ),
    ensures
        after.files.filter(is_child_of(target)) == mid.files.filter(is_child_of(target)).push(
            after.files[mid.files.len() as int],
        ),
{
    let wanted = is_child_of(target);
    let added = mid.files.len() as int;
    let place = after.files[added].path;
    let extra = after.files.skip(added);
    assert(is_stored_path(place));
    assert(after.files =~= mid.files + extra) by {
        assert forall|i: int| 0 <= i < mid.files.len() implies after.files[i] == mid.files[i] by {
            assert(after.files.take(added)[i] == mid.files[i]);
        }
    }
    assert forall|i: int| 1 <= i < extra.len() implies !wanted(#[trigger] extra[i]) by {
        assert(extra[i] == after.files[added + i]);
        assert(is_stored_path(after.files[added + i].path));
        if wanted(extra[i]) {
            lemma_siblings(extra[i].path, place, extra[i].path);
        }
    }
    assert(extra[0] == after.files[added]);
    lemma_filter_first_only(extra, wanted);
    Seq::filter_distributes_over_add(mid.files, extra, wanted);
    assert(mid.files.filter(wanted) + seq![after.files[added]] =~= mid.files.filter(wanted).push(
        after.files[added],
    ));
}

/// What the children that were imported before export as stays what it is
/// when one more child is imported.
pub proof fn lemma_step_exports(
    item: ExportedItemView,
    done: nat,
    mid: TablesView,
    after: TablesView,
    target: Seq<char>,
    skip: int,
)
    requires
        mid.wf(),
        after.wf(),
        grows_into(mid, after),
        is_stored_path(target),
        item.children is Some,
        done <= item.children->0.len(),
        mid.files.len() < after.files.len(),
        parent_path(after.files[mid.files.len() as int].path) == target,
        forall|i: int|
            mid.files.len() < i < after.files.len() ==> is_below(
                (#[trigger] after.files[i]).path,
                after.files[mid.files.len() as int].path,
            ),
        after.files.len() > mid.files.len() + 1 ==> !mid.folder_exists(
            after.files[mid.files.len() as int].path,
        ),
        mid.files.filter(is_child_of(target)).len() == done,
        forall|k: int|
            0 <= k < done ==> is_export_of(
                item.children->0[k],
                mid,
                #[trigger] mid.files.filter(is_child_of(target))[k],
                skip,
            ),
    ensures
        forall|k: int|
            0 <= k < done ==> is_export_of(
                item.children->0[k],
                after,
                #[trigger] mid.files.filter(is_child_of(target))[k],
                skip,
            ),
{
    let wanted = is_child_of(target);
    let added = mid.files.len() as int;
    let place = after.files[added].path;
    let below_mid = mid.files.filter(wanted);
    assert(is_stored_path(place));
    lemma_filter_keeps_order(mid.files, wanted);
    assert forall|k: int| 0 <= k < done implies is_export_of(
        item.children->0[k],
        after,
        #[trigger] below_mid[k],
        skip,
    ) by {
        let from = kept_from(mid.files, wanted, k);
        assert(mid.files[from] == below_mid[k]);
        assert(is_stored_path(mid.files[from].path));
        if mid.files[from].is_folder {
            assert forall|i: int| mid.files.len() <= i < after.files.len() implies !is_below(
                (#[trigger] after.files[i]).path,
                mid.files[from].path,
            ) by {
                if is_below(after.files[i].path, mid.files[from].path) {
                    if i == added {
                        lemma_siblings(place, mid.files[from].path, place);
                    } else {
                        lemma_siblings(place, mid.files[from].path, after.files[i].path);
                        assert(mid.files[from].path == place);
                        assert(mid.folder_exists(place));
                    }
                }
            }
        }
        lemma_export_stays(item.children->0[k], mid, after, from, skip);
    }
}

/// Repetitions that are fresh from a place on, in a store that grew into one
/// in which all further repetitions are fresh, are fresh from that place on.
pub proof fn lemma_fresh_goes_on(
    folder_state: TablesView,
    mid: TablesView,
    after: TablesView,
    now: Timestamp,
)
    requires
        grows_into(folder_state, mid),
        grows_into(mid, after),
        fresh_from(mid, folder_state.repetitions.len() as int, folder_state.last_cell_id, now),
        fresh_from(after, mid.repetitions.len() as int, mid.last_cell_id, now),
    ensures
        fresh_from(after, folder_state.repetitions.len() as int, folder_state.last_cell_id, now),
{
    assert forall|i: int| folder_state.repetitions.len() <= i < after.repetitions.len() implies {
        let row = #[trigger] after.repetitions[i];
        &&& row.state == State::New
        &&& row.reps == 0
        &&& row.lapses == 0
        &&& row.due == now
        &&& row.last_review == now
        &&& row.cell_id > folder_state.last_cell_id
    } by {
        if i < mid.repetitions.len() {
            assert(after.repetitions.take(mid.repetitions.len() as int)[i] == mid.repetitions[i]);
        }
    }
}

/// Importing the first children of a folder makes the store grow by their
/// nodes, which come to stand directly in the folder, in their order.
pub proof fn lemma_imported_children(
    folder_state: TablesView,
    item: ExportedItemView,
    upto: nat,
    parent: Seq<char>,
    now: Timestamp,
)
    requires
        folder_state.wf(),
        is_well_shaped(item),
        item.item_type == ExportedItemType::Folder,
        upto <= item.children->0.len(),
        parent.len() == 0 || is_stored_path(parent),
        folder_state.folder_exists(join(parent, item.path)),
        nothing_below(folder_state.files, join(parent, item.path)),
        way_exists(folder_state, join(parent, item.path)),
        imported_children(folder_state, item, upto, parent, now) is Ok,
    ensures
        are_children_imported(
            item,
            parent,
            upto,
            folder_state,
            imported_children(folder_state, item, upto, parent, now)->Ok_0,
            now,
        ),
    decreases item, upto,
{
    let target = join(parent, item.path);
    let wanted = is_child_of(target);
    let first = folder_state.files.len() as int;
    let skip = target.len() - item.path.len();
    lemma_trim_joined(parent, item.path);
    if upto == 0 {
        assert forall|i: int| 0 <= i < folder_state.files.len() implies !wanted(
            #[trigger] folder_state.files[i],
        ) by {
            assert(is_stored_path(folder_state.files[i].path));
            if wanted(folder_state.files[i]) {
                lemma_child_is_below(folder_state.files[i].path);
            }
        }
        lemma_filter_none(folder_state.files, wanted);
        assert(folder_state.files.take(folder_state.files.len() as int) =~= folder_state.files);
        assert(folder_state.cells.take(folder_state.cells.len() as int) =~= folder_state.cells);
        assert(folder_state.repetitions.take(folder_state.repetitions.len() as int)
            =~= folder_state.repetitions);
    } else {
        let done = (upto - 1) as nat;
        lemma_imported_children(folder_state, item, done, parent, now);
        let mid = imported_children(folder_state, item, done, parent, now)->Ok_0;
        let child = item.children->0[upto - 1];
        let after = imported(mid, child, parent, now)->Ok_0;
        let place = join(parent, child.path);
        assert(is_well_shaped(child) && parent_path(child.path) == item.path);
        lemma_joined_child(item.path, child.path, parent);
        lemma_trim_joined(parent, child.path);
        lemma_child_is_below(place);
        lemma_way_goes_on(folder_state, mid, target, place);
        if child.item_type == ExportedItemType::Folder {
            assert(created_folder(mid, parent + seq![SEPARATOR] + child.path) is Ok);
            assert(!mid.folder_exists(place));
            lemma_place_is_vacant(item, parent, done, folder_state, mid, place, now);
        }
        lemma_imported_item(mid, child, parent, now);
        lemma_grows_on(folder_state, mid, after);
        let added = mid.files.len() as int;
        assert(is_imported_as(child, parent, mid, after, now));
        assert(after.files[added].path == place);
        assert forall|i: int| added < i < after.files.len() implies after.files[added].is_folder
            && is_below((#[trigger] after.files[i]).path, place) by {
            assert(is_below(after.files[i].path, place));
            assert(child.item_type == ExportedItemType::Folder);
        }
        if after.files.len() > added + 1 {
            assert(is_below(after.files[added + 1].path, place));
            assert(child.item_type == ExportedItemType::Folder);
        }
        lemma_step_nodes(first, mid, after, target, place);
        lemma_step_children(mid, after, target);
        lemma_step_exports(item, done, mid, after, target, skip);
        lemma_fresh_goes_on(folder_state, mid, after, now);
    }
}

/// Whether cleaning leaves the content of every cell that `item` lists, and
/// of every cell of the items that it holds, as it is.
pub open spec fn is_kept_by_cleaning(item: ExportedItemView) -> bool
    decreases item,
{
    &&& item.cells is Some ==> forall|i: int|
        0 <= i < item.cells->0.len() ==> purified((#[trigger] item.cells->0[i]).content)
            == item.cells->0[i].content
    &&& item.children is Some ==> forall|i: int|
        0 <= i < item.children->0.len() ==> is_kept_by_cleaning(#[trigger] item.children->0[i])
}

/// What exporting a node gives is shaped as an export is, where the paths
/// are cut at the start of a name and cleaning leaves every cell as it is.
pub proof fn lemma_export_is_shaped(item: ExportedItemView, s: TablesView, at: int, skip: int)
    requires
        s.wf(),
        0 <= at < s.files.len(),
        0 <= skip < s.files[at].path.len(),
        s.files[at].path[skip] != SEPARATOR,
        is_export_of(item, s, s.files[at], skip),
        is_kept_by_cleaning(item),
    ensures
        is_well_shaped(item),
    decreases item,
{
    let node = s.files[at];
    let path = node.path;
    assert(is_stored_path(path));
    assert(item.path.first() == path[skip]);
    assert(item.path.last() == path.last());
    if node.is_folder {
        let wanted = is_child_of(path);
        let below = s.files.filter(wanted);
        lemma_filter_keeps_order(s.files, wanted);
        assert forall|i: int| 0 <= i < item.children->0.len() implies is_well_shaped(
            #[trigger] item.children->0[i],
        ) && parent_path(item.children->0[i].path) == item.path by {
            let child = item.children->0[i];
            let w = kept_from(s.files, wanted, i);
            assert(s.files[w] == below[i]);
            let longer = s.files[w].path;
            assert(is_stored_path(longer));
            assert(parent_path(longer) == path);
            lemma_child_is_below(longer);
            assert(longer[skip] == (path + seq![SEPARATOR])[skip]);
            lemma_export_is_shaped(child, s, w, skip);
            lemma_last_separator(longer);
            assert(is_export_of(child, s, s.files[w], skip));
            assert(child.path == longer.subrange(skip, longer.len() as int));
            assert(child.path.len() == longer.len() - skip);
            let cut = path.len() - skip;
            assert(0 <= cut < child.path.len());
            assert(child.path[cut] == longer[path.len() as int]);
            assert forall|j: int| cut < j < child.path.len() implies child.path[j]
                != SEPARATOR by {
                assert(child.path[j] == longer[j + skip]);
            }
            lemma_last_separator_is(child.path, cut);
            assert(parent_path(child.path) =~= item.path);
        }
    }
}

/// An item that was exported and is imported into a folder comes to stand
/// there under its name, with all that it holds: exporting the node that
/// came gives the item again, where cleaning leaves the content of its cells
/// as it is. The nodes that came have new ids, and the repetitions that came
/// are fresh. This holds where the folders on the way to the folder stand in
/// the store and nothing lies below the place that the item takes.
pub proof fn law_exported_item_is_imported_alike(
    s: TablesView,
    id: int,
    item: ExportedItemView,
    t: TablesView,
    import_into_folder_id: int,
    now: Timestamp,
)
    requires
        s.wf(),
        s.has_node(id),
        is_export_of(item, s, s.node(id), last_separator(s.node(id).path) + 1),
        is_kept_by_cleaning(item),
        t.wf(),
        way_exists(t, join(t.destination_path(import_into_folder_id), item.path)),
        nothing_below(t.files, join(t.destination_path(import_into_folder_id), item.path)),
        imported_into(t, item, import_into_folder_id, now) is Ok,
    ensures
        ({
            let after = imported_into(t, item, import_into_folder_id, now)->Ok_0;
            let node = after.files[t.files.len() as int];
            &&& after.wf()
            &&& grows_into(t, after)
            &&& after.files.len() > t.files.len()
            &&& node.path == join(t.destination_path(import_into_folder_id), item.path)
            &&& node.id > t.last_file_id
            &&& is_export_of(item, after, node, last_separator(node.path) + 1)
            &&& fresh_from(after, t.repetitions.len() as int, t.last_cell_id, now)
        }),
{
    let at = choose|i: int| 0 <= i < s.files.len() && (#[trigger] s.files[i]).id == id;
    let source = s.files[at].path;
    let parent = t.destination_path(import_into_folder_id);
    assert(is_stored_path(source));
    lemma_last_separator(source);
    lemma_export_is_shaped(item, s, at, last_separator(source) + 1);
    if import_into_folder_id != 0 {
        let w = choose|i: int|
            0 <= i < t.files.len() && (#[trigger] t.files[i]).id == import_into_folder_id;
        assert(is_stored_path(t.files[w].path));
    }
    lemma_imported_item(t, item, parent, now);
    let target = join(parent, item.path);
    assert forall|j: int| 0 <= j < item.path.len() implies item.path[j] != SEPARATOR by {
        assert(item.path[j] == source[last_separator(source) + 1 + j]);
    }
    lemma_last_separator_is(target, target.len() - item.path.len() - 1);
}

} // verus!
