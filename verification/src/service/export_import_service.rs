//! Taking a subtree of the hierarchy out of the store, and bringing one in.

use vstd::prelude::*;
use vstd::string::*;
use crate::clock::Timestamp;
use crate::clock::current_time;
use crate::cloze::find_markers;
use crate::cloze::markers_of;
use crate::dto::exported_item::ExportedCell;
use crate::dto::exported_item::ExportedCellView;
use crate::dto::exported_item::ExportedItem;
use crate::dto::exported_item::ExportedItemType;
use crate::dto::exported_item::ExportedItemView;
use crate::dto::exported_item::exported_cell_views;
use crate::entity::cell;
use crate::entity::file;
use crate::error::ServiceError;
use crate::error::StoreFault;
use crate::error::delivers;
use crate::path::SEPARATOR;
use crate::path::get_folder_path;
use crate::path::last_separator;
use crate::path::lemma_last_separator;
use crate::path::parent_path;
use crate::path::rfind_separator;
use crate::path::to_chars;
use crate::sanitize::is_purifiable;
use crate::sanitize::purified;
use crate::sanitize::sanitize;
use crate::seqs::lemma_filter_empty;
use crate::seqs::lemma_filter_take_next;
use crate::service::cell_service::create_cell_with_markers;
use crate::service::cell_service::created_cell;
use crate::service::cell_service::get_file_cells_ordered_by_index;
use crate::service::cell_service::in_file;
use crate::service::cell_service::in_order;
use crate::service::file_service::create_file;
use crate::service::file_service::create_folder;
use crate::service::file_service::created_file;
use crate::service::file_service::created_folder;
use crate::store::Store;
use crate::store::TablesView;
use crate::store::cell_views;
use crate::store::lemma_node_at;

verus! {

/// The test that keeps the nodes that stand directly in the folder at `folder`.
pub open spec fn is_child_of(folder: Seq<char>) -> spec_fn(file::ModelView) -> bool {
    |node: file::ModelView| parent_path(node.path) == folder
}

/// How a cell is exported.
pub open spec fn as_exported() -> spec_fn(cell::ModelView) -> ExportedCellView {
    |row: cell::ModelView| ExportedCellView { content: row.content, cell_type: row.cell_type }
}

/// Whether `exported` lists `cells` in the order of their positions.
pub open spec fn is_listing_of(exported: Seq<ExportedCellView>, cells: Seq<cell::ModelView>) -> bool {
    exists|ordered: Seq<cell::ModelView>|
        in_order(ordered) && ordered.to_multiset() == cells.to_multiset() && exported
            == #[trigger] ordered.map_values(as_exported())
}

/// Whether `item` is what exporting `node` gives: its path without the first
/// `skip` characters; for a file its cells in the order of their positions;
/// for a folder what exporting each node that stands directly in it gives, in
/// the order of their ids.
pub open spec fn is_export_of(
    item: ExportedItemView,
    s: TablesView,
    node: file::ModelView,
    skip: int,
) -> bool
    decreases item,
{
    let below = s.files.filter(is_child_of(node.path));
    &&& item.path == node.path.subrange(skip, node.path.len() as int)
    &&& if node.is_folder {
        &&& item.item_type == ExportedItemType::Folder
        &&& item.cells is None
        &&& item.children is Some
        &&& item.children->0.len() == below.len()
        &&& forall|i: int|
            0 <= i < item.children->0.len() ==> is_export_of(
                #[trigger] item.children->0[i],
                s,
                below[i],
                skip,
            )
    } else {
        &&& item.item_type == ExportedItemType::File
        &&& item.children is None
        &&& item.cells is Some
        &&& is_listing_of(item.cells->0, s.cells.filter(in_file(node.id)))
    }
}

/// The cells of the file `file_id` as they are exported.
fn exported_cells(store: &Store, file_id: i32) -> (exported: Vec<ExportedCell>)
    ensures
        is_listing_of(exported_cell_views(exported@), store@.cells.filter(in_file(file_id as int))),
{
    let ordered = get_file_cells_ordered_by_index(store, file_id);
    let mut exported: Vec<ExportedCell> = Vec::new();
    let mut i: usize = 0;
    while i < ordered.len()
        invariant
            i <= ordered@.len(),
            exported@.len() == i,
            forall|j: int|
                0 <= j < i ==> (#[trigger] exported@[j])@ == as_exported()(cell_views(ordered@)[j]),
        decreases ordered@.len() - i,
    {
        exported.push(
            ExportedCell { content: ordered[i].content.clone(), cell_type: ordered[i].cell_type },
        );
        i = i + 1;
    }
    assert(exported_cell_views(exported@) =~= cell_views(ordered@).map_values(as_exported()));
    exported
}

/// What exporting the node at the place `at` of the nodes gives.
fn get_exported_item(store: &Store, at: usize, skip: usize, longest: usize) -> (item: ExportedItem)
    requires
        at < store@.files.len(),
        skip <= store@.files[at as int].path.len(),
        forall|i: int| 0 <= i < store@.files.len() ==> (#[trigger] store@.files[i]).path.len() <= longest,
    ensures
        is_export_of(item@, store@, store@.files[at as int], skip as int),
    decreases longest - store@.files[at as int].path.len(),
{
    let tables = store.tables();
    let node = &tables.files[at];
    let ghost s = store@;
    let ghost own = s.files[at as int];
    assert(node@ == own);
    let path_length = node.path.as_str().unicode_len();
    let path = String::from_str(node.path.as_str().substring_char(skip, path_length));
    if !node.is_folder {
        let cells = exported_cells(store, node.id);
        ExportedItem::new(path, ExportedItemType::File, Some(cells), None)
    } else {
        let ghost wanted = is_child_of(own.path);
        let mut children: Vec<ExportedItem> = Vec::new();
        let mut i: usize = 0;
        proof {
            lemma_filter_empty(wanted);
            assert(s.files.take(0) =~= Seq::<file::ModelView>::empty());
        }
        while i < tables.files.len()
            invariant
                i <= tables.files@.len(),
                tables@ == s,
                s == store@,
                s.wf(),
                node@ == own,
                own == s.files[at as int],
                at < s.files.len(),
                skip <= own.path.len(),
                wanted == is_child_of(own.path),
                forall|j: int| 0 <= j < s.files.len() ==> (#[trigger] s.files[j]).path.len() <= longest,
                children@.len() == s.files.take(i as int).filter(wanted).len(),
                forall|k: int|
                    0 <= k < children@.len() ==> is_export_of(
                        (#[trigger] children@[k])@,
                        s,
                        s.files.take(i as int).filter(wanted)[k],
                        skip as int,
                    ),
            decreases tables.files@.len() - i,
        {
            proof {
                lemma_filter_take_next(s.files, i as int, wanted);
            }
            let candidate = &tables.files[i];
            assert(candidate@ == s.files[i as int]);
            let parent = get_folder_path(candidate.path.as_str());
            let inside = parent == node.path;
            assert(inside == wanted(s.files[i as int]));
            if inside {
                proof {
                    lemma_last_separator(candidate@.path);
                    assert(crate::path::is_stored_path(s.files[i as int].path));
                    assert(crate::path::is_stored_path(s.files[at as int].path));
                    assert(candidate@.path.len() > own.path.len());
                }
                let child = get_exported_item(store, i, skip, longest);
                children.push(child);
            }
            i = i + 1;
        }
        assert(s.files.take(s.files.len() as int) =~= s.files);
        ExportedItem::new(path, ExportedItemType::Folder, None, Some(children))
    }
}

/// The length of the longest path of a node.
fn longest_path(store: &Store) -> (longest: usize)
    ensures
        forall|i: int| 0 <= i < store@.files.len() ==> (#[trigger] store@.files[i]).path.len() <= longest,
{
    let tables = store.tables();
    let mut longest: usize = 0;
    let mut i: usize = 0;
    while i < tables.files.len()
        invariant
            i <= tables.files@.len(),
            tables@ == store@,
            forall|j: int| 0 <= j < i ==> (#[trigger] store@.files[j]).path.len() <= longest,
        decreases tables.files@.len() - i,
    {
        assert(tables.files@[i as int]@ == store@.files[i as int]);
        let length = tables.files[i].path.as_str().unicode_len();
        if length > longest {
            longest = length;
        }
        i = i + 1;
    }
    longest
}

/// The node `item_id` with all that lies below it, ready to leave the store.
/// Paths start at the name of the node.
pub fn export(store: &Store, item_id: i32) -> (result: Result<ExportedItem, ServiceError>)
    ensures
        match result {
            Ok(item) => store@.has_node(item_id as int) && is_export_of(
                item@,
                store@,
                store@.node(item_id as int),
                last_separator(store@.node(item_id as int).path) + 1,
            ),
            Err(error) => error == ServiceError::NotFound && !store@.has_node(item_id as int),
        },
{
    let tables = store.tables();
    let at = match tables.find_node(item_id) {
        Some(at) => at,
        None => {
            return Err(ServiceError::NotFound);
        },
    };
    proof {
        lemma_node_at(tables@, at as int);
        lemma_last_separator(tables@.files[at as int].path);
    }
    let chars = to_chars(tables.files[at].path.as_str());
    let skip = match rfind_separator(&chars) {
        Some(i) => i + 1,
        None => 0,
    };
    let longest = longest_path(store);
    Ok(get_exported_item(store, at, skip, longest))
}

/// What importing the first `upto` of `cells` into the file `file_id` leads
/// to: each is cleaned and created at the position at which it is listed.
pub open spec fn imported_cells(
    s: TablesView,
    file_id: int,
    cells: Seq<ExportedCellView>,
    upto: nat,
    now: Timestamp,
) -> Result<TablesView, ServiceError>
    decreases upto,
{
    if upto == 0 {
        Ok(s)
    } else {
        match imported_cells(s, file_id, cells, (upto - 1) as nat, now) {
            Err(error) => Err(error),
            Ok(mid) => {
                let cell = cells[upto - 1];
                let clean = purified(cell.content);
                if upto - 1 > i32::MAX {
                    Err(ServiceError::Persistence(StoreFault::PositionOutOfRange))
                } else if !is_purifiable(cell.content) {
                    Err(ServiceError::MalformedContent)
                } else {
                    match created_cell(
                        mid,
                        file_id,
                        clean,
                        cell.cell_type,
                        upto - 1,
                        markers_of(cell.cell_type, clean),
                        now,
                    ) {
                        Ok((next, _)) => Ok(next),
                        Err(error) => Err(error),
                    }
                }
            },
        }
    }
}

/// What importing `item` below the folder at `parent` leads to: a file is
/// created with its cells, a folder with what it holds. The paths of all
/// items are taken from `parent`.
pub open spec fn imported(s: TablesView, item: ExportedItemView, parent: Seq<char>, now: Timestamp) -> Result<
    TablesView,
    ServiceError,
>
    decreases item, (if item.children is Some { item.children->0.len() } else { 0 }) + 1,
{
    let path = parent + seq![SEPARATOR] + item.path;
    match item.item_type {
        ExportedItemType::File => match created_file(s, path) {
            Err(error) => Err(error),
            Ok((with_file, file_id)) => match item.cells {
                Some(cells) => imported_cells(with_file, file_id, cells, cells.len(), now),
                None => Ok(with_file),
            },
        },
        ExportedItemType::Folder => match created_folder(s, path) {
            Err(error) => Err(error),
            Ok((with_folder, _)) => match item.children {
                Some(children) => imported_children(with_folder, item, children.len(), parent, now),
                None => Ok(with_folder),
            },
        },
    }
}

/// What importing the first `upto` children of `item` leads to.
pub open spec fn imported_children(
    s: TablesView,
    item: ExportedItemView,
    upto: nat,
    parent: Seq<char>,
    now: Timestamp,
) -> Result<TablesView, ServiceError>
    decreases item, upto,
{
    if upto == 0 || item.children is None || upto > item.children->0.len() {
        Ok(s)
    } else {
        match imported_children(s, item, (upto - 1) as nat, parent, now) {
            Err(error) => Err(error),
            Ok(mid) => imported(mid, item.children->0[upto - 1], parent, now),
        }
    }
}

/// Whether a call that was to lead to `expected` succeeded with the expected
/// tables, or failed with the expected error.
pub open spec fn follows(
    after: TablesView,
    result: Result<(), ServiceError>,
    expected: Result<TablesView, ServiceError>,
) -> bool {
    match expected {
        Ok(next) => result is Ok && after == next,
        Err(error) => result == Err::<(), ServiceError>(error),
    }
}

/// Once a cell has failed, the cells after it change nothing.
pub proof fn lemma_cell_failure_decides(
    s: TablesView,
    file_id: int,
    cells: Seq<ExportedCellView>,
    upto: nat,
    all: nat,
    now: Timestamp,
)
    requires
        upto <= all,
        imported_cells(s, file_id, cells, upto, now) is Err,
    ensures
        imported_cells(s, file_id, cells, all, now) == imported_cells(
            s,
            file_id,
            cells,
            upto,
            now,
        ),
    decreases all - upto,
{
    if upto < all {
        lemma_cell_failure_decides(s, file_id, cells, upto, (all - 1) as nat, now);
    }
}

/// Once a child has failed, the children after it change nothing.
pub proof fn lemma_child_failure_decides(
    s: TablesView,
    item: ExportedItemView,
    upto: nat,
    all: nat,
    parent: Seq<char>,
    now: Timestamp,
)
    requires
        item.children is Some,
        upto <= all <= item.children->0.len(),
        imported_children(s, item, upto, parent, now) is Err,
    ensures
        imported_children(s, item, all, parent, now) == imported_children(
            s,
            item,
            upto,
            parent,
            now,
        ),
    decreases all - upto,
{
    if upto < all {
        lemma_child_failure_decides(s, item, upto, (all - 1) as nat, parent, now);
    }
}

/// Creates `cells` in the file `file_id`, each cleaned, at the positions at
/// which they are listed.
fn import_cells(store: &mut Store, file_id: i32, cells: &Vec<ExportedCell>, now: Timestamp) -> (result:
    Result<(), ServiceError>)
    ensures
        follows(
            final(store)@,
            result,
            imported_cells(
                old(store)@,
                file_id as int,
                exported_cell_views(cells@),
                cells@.len(),
                now,
            ),
        ),
        final(store)@.wf(),
{
    let ghost before = store@;
    let ghost all = exported_cell_views(cells@);
    let mut i: usize = 0;
    let _ = store.tables();
    while i < cells.len()
        invariant
            i <= cells@.len(),
            all == exported_cell_views(cells@),
            before == old(store)@,
            store@.wf(),
            imported_cells(before, file_id as int, all, i as nat, now) == Ok::<
                TablesView,
                ServiceError,
            >(store@),
        decreases cells@.len() - i,
    {
        let cell = &cells[i];
        assert(all[i as int] == cell@);
        if i > i32::MAX as usize {
            proof {
                assert(imported_cells(before, file_id as int, all, (i + 1) as nat, now) == Err::<
                    TablesView,
                    ServiceError,
                >(ServiceError::Persistence(StoreFault::PositionOutOfRange)));
                lemma_cell_failure_decides(
                    before,
                    file_id as int,
                    all,
                    (i + 1) as nat,
                    cells@.len(),
                    now,
                );
            }
            return Err(ServiceError::Persistence(StoreFault::PositionOutOfRange));
        }
        let clean = match sanitize(cell.content.as_str()) {
            Some(clean) => clean,
            None => {
                proof {
                    assert(imported_cells(before, file_id as int, all, (i + 1) as nat, now) == Err::<
                        TablesView,
                        ServiceError,
                    >(ServiceError::MalformedContent));
                    lemma_cell_failure_decides(
                        before,
                        file_id as int,
                        all,
                        (i + 1) as nat,
                        cells@.len(),
                        now,
                    );
                }
                return Err(ServiceError::MalformedContent);
            },
        };
        let found = find_markers(cell.cell_type, clean.as_str());
        match create_cell_with_markers(
            store,
            file_id,
            clean,
            cell.cell_type,
            i as i32,
            &found,
            now,
        ) {
            Ok(_) => {},
            Err(error) => {
                proof {
                    assert(imported_cells(before, file_id as int, all, (i + 1) as nat, now) == Err::<
                        TablesView,
                        ServiceError,
                    >(error));
                    lemma_cell_failure_decides(
                        before,
                        file_id as int,
                        all,
                        (i + 1) as nat,
                        cells@.len(),
                        now,
                    );
                }
                return Err(error);
            },
        }
        i = i + 1;
    }
    Ok(())
}

/// Creates what `item` holds below the folder at `parent`.
fn import_exported_item(store: &mut Store, item: &ExportedItem, parent: &str, now: Timestamp) -> (result:
    Result<(), ServiceError>)
    ensures
        follows(final(store)@, result, imported(old(store)@, item@, parent@, now)),
        final(store)@.wf(),
    decreases item,
{
    let ghost before = store@;
    proof {
        reveal_strlit("/");
        assert("/"@ =~= seq![SEPARATOR]);
        item.lemma_view();
    }
    let path = String::from_str(parent).concat("/").concat(item.path.as_str());
    match item.item_type {
        ExportedItemType::File => {
            let file_id = match create_file(store, path) {
                Ok(file_id) => file_id,
                Err(error) => {
                    return Err(error);
                },
            };
            match &item.cells {
                Some(cells) => import_cells(store, file_id, cells, now),
                None => Ok(()),
            }
        },
        ExportedItemType::Folder => {
            match create_folder(store, path) {
                Ok(_) => {},
                Err(error) => {
                    return Err(error);
                },
            }
            match &item.children {
                Some(children) => {
                    let ghost with_folder = store@;
                    let mut k: usize = 0;
                    assert(imported(before, item@, parent@, now) == imported_children(
                        with_folder,
                        item@,
                        children@.len() as nat,
                        parent@,
                        now,
                    ));
                    while k < children.len()
                        invariant
                            k <= children@.len(),
                            item.children == Some(*children),
                            before == old(store)@,
                            imported(before, item@, parent@, now) == imported_children(
                                with_folder,
                                item@,
                                children@.len() as nat,
                                parent@,
                                now,
                            ),
                            store@.wf(),
                            imported_children(with_folder, item@, k as nat, parent@, now) == Ok::<
                                TablesView,
                                ServiceError,
                            >(store@),
                        decreases children@.len() - k,
                    {
                        proof {
                            item.lemma_view();
                            assert(item@.children->0[k as int] == children@[k as int]@);
                        }
                        let ghost mid = store@;
                        match import_exported_item(store, &children[k], parent, now) {
                            Ok(()) => {},
                            Err(error) => {
                                proof {
                                    assert(imported_children(
                                        with_folder,
                                        item@,
                                        (k + 1) as nat,
                                        parent@,
                                        now,
                                    ) == Err::<TablesView, ServiceError>(error));
                                    lemma_child_failure_decides(
                                        with_folder,
                                        item@,
                                        (k + 1) as nat,
                                        children@.len(),
                                        parent@,
                                        now,
                                    );
                                }
                                return Err(error);
                            },
                        }
                        k = k + 1;
                    }
                    Ok(())
                },
                None => Ok(()),
            }
        },
    }
}

/// What `import` leads to: `item` is imported below the folder
/// `import_into_folder_id`, or below the root where that is 0.
pub open spec fn imported_into(
    s: TablesView,
    item: ExportedItemView,
    import_into_folder_id: int,
    now: Timestamp,
) -> Result<TablesView, ServiceError> {
    if import_into_folder_id != 0 && !s.has_node(import_into_folder_id) {
        Err(ServiceError::NotFound)
    } else {
        imported(s, item, s.destination_path(import_into_folder_id), now)
    }
}

/// Creates what `item` holds below the folder `import_into_folder_id`, or
/// below the root where that is 0. The content of each cell is cleaned, and
/// each cell gets the repetitions that its type and its markers ask for,
/// fresh at `now`. Where a part of `item` cannot be created, nothing is.
pub fn import_at(store: &mut Store, item: &ExportedItem, import_into_folder_id: i32, now: Timestamp) -> (result:
    Result<(), ServiceError>)
    ensures
        delivers(
            old(store)@,
            final(store)@,
            result,
            imported_into(old(store)@, item@, import_into_folder_id as int, now),
        ),
        final(store)@.wf(),
{
    let tables = store.tables();
    let parent = if import_into_folder_id == 0 {
        String::new()
    } else {
        match tables.find_node(import_into_folder_id) {
            Some(at) => {
                proof {
                    lemma_node_at(tables@, at as int);
                }
                tables.files[at].path.clone()
            },
            None => {
                return Err(ServiceError::NotFound);
            },
        }
    };
    let backup = tables.duplicate();
    match import_exported_item(store, item, parent.as_str(), now) {
        Ok(()) => Ok(()),
        Err(error) => {
            let _ = store.take();
            store.replace(backup);
            Err(error)
        },
    }
}

/// Creates what `item` holds below the folder `import_into_folder_id`, or
/// below the root where that is 0; what is added is fresh at the time of the
/// call. Where a part of `item` cannot be created, nothing is.
pub fn import(store: &mut Store, item: &ExportedItem, import_into_folder_id: i32) -> (result:
    Result<(), ServiceError>)
    ensures
        exists|now: Timestamp|
            delivers(
                old(store)@,
                final(store)@,
                result,
                #[trigger] imported_into(old(store)@, item@, import_into_folder_id as int, now),
            ),
        final(store)@.wf(),
{
    let now = current_time();
    import_at(store, item, import_into_folder_id, now)
}

} // verus!
