//! The hierarchy of files and folders: creating, deleting, moving and renaming
//! nodes, with the folders on the way created as needed and the paths below a
//! folder rewritten with it.

use vstd::prelude::*;
use vstd::string::*;
use crate::clock::current_time;
use crate::clock::Timestamp;
use crate::dto::file_with_repetitions_count::FileWithRepetitionsCount;
use crate::dto::file_with_repetitions_count::FileWithRepetitionsCountView;
use crate::entity::file;
use crate::entity::repetition;
use crate::service::repetition_service::get_study_repetition_counts_at;
use crate::service::repetition_service::study_counts;
use crate::error::delivers;
use crate::error::delivers_id;
use crate::error::ServiceError;
use crate::error::StoreFault;
use crate::path::basename;
use crate::path::chain_upto;
use crate::path::folder_chain;
use crate::path::is_below;
use crate::path::is_below_folder;
use crate::path::is_blank;
use crate::path::is_blank_text;
use crate::path::is_cut;
use crate::path::is_stored_path;
use crate::path::join;
use crate::path::join_path;
use crate::path::apply_new_name;
use crate::path::get_file_name;
use crate::path::lemma_last_separator;
use crate::path::rebase;
use crate::path::rebased;
use crate::path::with_renamed_basename;
use crate::path::lemma_split;
use crate::path::lemma_trimmed;
use crate::path::parent_path;
use crate::path::to_chars;
use crate::path::trim_matches_separator;
use crate::path::trim_separators;
use crate::path::get_folder_path;
use crate::path::SEPARATOR;
use crate::seqs::lemma_filter_empty;
use crate::seqs::lemma_filter_take_next;
use crate::seqs::text_views;
use crate::store::all_paths_unique;
use crate::store::file_views;
use crate::store::lemma_keeping_nodes_wf;
use crate::store::lemma_node_at;
use crate::store::path_taken;
use crate::store::paths_unique;
use crate::store::Store;
use crate::store::Tables;
use crate::store::TablesView;

verus! {

/// The test that keeps the paths at which no folder stands among `files`.
pub open spec fn is_missing(files: Seq<file::ModelView>) -> spec_fn(Seq<char>) -> bool {
    |path: Seq<char>| !path_taken(files, path, true)
}

/// The folders on the way to `path` that do not stand among `files`,
/// shortest first.
pub open spec fn missing_folders(files: Seq<file::ModelView>, path: Seq<char>) -> Seq<Seq<char>> {
    folder_chain(path).filter(is_missing(files))
}

/// Folders at `paths`, with the ids from `first_id` on.
pub open spec fn new_folders(first_id: int, paths: Seq<Seq<char>>) -> Seq<file::ModelView> {
    Seq::new(
        paths.len(),
        |k: int| file::ModelView { id: first_id + k, path: paths[k], is_folder: true },
    )
}

impl TablesView {
    /// The tables with one more node, which gets the next id.
    pub open spec fn with_node(self, path: Seq<char>, is_folder: bool) -> TablesView {
        TablesView {
            files: self.files.push(
                file::ModelView { id: self.last_file_id + 1, path, is_folder },
            ),
            last_file_id: self.last_file_id + 1,
            ..self
        }
    }

    /// The tables with folders at `paths`, which get the next ids in turn.
    pub open spec fn with_new_folders(self, paths: Seq<Seq<char>>) -> TablesView {
        TablesView {
            files: self.files + new_folders(self.last_file_id + 1, paths),
            last_file_id: self.last_file_id + paths.len(),
            ..self
        }
    }

    /// The tables with a folder added for each folder on the way to `path`
    /// that is missing, `path` itself included.
    pub open spec fn with_folders(self, path: Seq<char>) -> TablesView {
        self.with_new_folders(missing_folders(self.files, path))
    }
}

/// What `create_folder` leads to: the tables after it and the id of the
/// folder at the trimmed path, or the reason why nothing was written.
pub open spec fn created_folder(s: TablesView, raw: Seq<char>) -> Result<
    (TablesView, int),
    ServiceError,
> {
    let path = trim_separators(raw);
    let next = s.with_folders(path);
    if is_blank(path) {
        Err(ServiceError::EmptyName)
    } else if s.folder_exists(path) {
        Err(ServiceError::AlreadyExists)
    } else if next.last_file_id > i32::MAX {
        Err(ServiceError::Persistence(StoreFault::IdsExhausted))
    } else {
        Ok((next, next.last_file_id))
    }
}

/// What `create_file` leads to: the tables after it and the id of the new
/// file, or the reason why nothing was written.
pub open spec fn created_file(s: TablesView, raw: Seq<char>) -> Result<
    (TablesView, int),
    ServiceError,
> {
    let path = trim_separators(raw);
    let next = s.with_folders(parent_path(path)).with_node(path, false);
    if is_blank(path) {
        Err(ServiceError::EmptyName)
    } else if s.file_exists(path) {
        Err(ServiceError::AlreadyExists)
    } else if next.last_file_id > i32::MAX {
        Err(ServiceError::Persistence(StoreFault::IdsExhausted))
    } else {
        Ok((next, next.last_file_id))
    }
}

/// Every missing folder on the way to `path` is a cut of `path`, and they
/// come shortest first.
pub proof fn lemma_missing_upto(files: Seq<file::ModelView>, path: Seq<char>, i: nat)
    requires
        i <= path.len(),
    ensures
        forall|k: int|
            0 <= k < chain_upto(path, i).filter(is_missing(files)).len() ==> {
                let found = #[trigger] chain_upto(path, i).filter(is_missing(files))[k];
                &&& 0 < found.len() <= i
                &&& is_cut(path, found.len() as int)
                &&& found == path.take(found.len() as int)
                &&& !path_taken(files, found, true)
            },
        forall|k: int, l: int|
            0 <= k < l < chain_upto(path, i).filter(is_missing(files)).len() ==> (
            #[trigger] chain_upto(path, i).filter(is_missing(files))[k]).len() < (
            #[trigger] chain_upto(path, i).filter(is_missing(files))[l]).len(),
    decreases i,
{
    if i == 0 {
        lemma_filter_empty(is_missing(files));
    } else {
        lemma_missing_upto(files, path, (i - 1) as nat);
        if is_cut(path, i as int) {
            chain_upto(path, (i - 1) as nat).lemma_filter_push(
                path.take(i as int),
                is_missing(files),
            );
        }
    }
}

/// Whether a node of the given kind stands at `path` among `files`.
fn path_is_taken(files: &Vec<file::Model>, path: &String, is_folder: bool) -> (taken: bool)
    ensures
        taken == path_taken(file_views(files@), path@, is_folder),
{
    let mut i: usize = 0;
    while i < files.len()
        invariant
            i <= files.len(),
            forall|j: int|
                0 <= j < i ==> !((#[trigger] file_views(files@)[j]).path == path@ && file_views(
                    files@,
                )[j].is_folder == is_folder),
        decreases files.len() - i,
    {
        if files[i].is_folder == is_folder && files[i].path == *path {
            assert(file_views(files@)[i as int].path == path@);
            return true;
        }
        i = i + 1;
    }
    false
}

/// The folders on the way to `path` that do not stand among `files`.
fn missing_folder_paths(files: &Vec<file::Model>, path: &str) -> (missing: Vec<String>)
    ensures
        text_views(missing@) == missing_folders(file_views(files@), path@),
{
    let chars = to_chars(path);
    let n = chars.len();
    let mut missing: Vec<String> = Vec::new();
    let mut i: usize = 0;
    proof {
        lemma_filter_empty(is_missing(file_views(files@)));
        assert(text_views(missing@) =~= Seq::<Seq<char>>::empty());
    }
    while i < n
        invariant
            i <= n,
            n == chars@.len(),
            chars@ == path@,
            text_views(missing@) == chain_upto(path@, i as nat).filter(
                is_missing(file_views(files@)),
            ),
        decreases n - i,
    {
        i = i + 1;
        let ghost before = text_views(missing@);
        if (i == n || chars[i] == SEPARATOR) && chars[i - 1] != SEPARATOR {
            let prefix = String::from_str(path.substring_char(0, i));
            assert(prefix@ == path@.take(i as int));
            proof {
                chain_upto(path@, (i - 1) as nat).lemma_filter_push(
                    path@.take(i as int),
                    is_missing(file_views(files@)),
                );
            }
            if !path_is_taken(files, &prefix, true) {
                missing.push(prefix);
                assert(text_views(missing@) =~= before.push(prefix@));
            }
        }
    }
    missing
}

/// A node that gets the next id, has a path that can be stored and takes no
/// place that is taken keeps the tables well formed.
pub proof fn lemma_with_node_wf(s: TablesView, path: Seq<char>, is_folder: bool)
    requires
        s.wf(),
        s.last_file_id < i32::MAX,
        is_stored_path(path),
        !path_taken(s.files, path, is_folder),
    ensures
        s.with_node(path, is_folder).wf(),
{
    let next = s.with_node(path, is_folder);
    assert forall|i: int| 0 <= i < next.cells.len() implies next.has_node(
        (#[trigger] next.cells[i]).file_id,
    ) by {
        let w = choose|w: int| 0 <= w < s.files.len() && (#[trigger] s.files[w]).id == s.cells[i].file_id;
        assert(next.files[w].id == s.cells[i].file_id);
    }
    assert forall|i: int| 0 <= i < next.repetitions.len() implies next.has_node(
        (#[trigger] next.repetitions[i]).file_id,
    ) by {
        let w = choose|w: int| 0 <= w < s.files.len() && (#[trigger] s.files[w]).id == s.repetitions[i].file_id;
        assert(next.files[w].id == s.repetitions[i].file_id);
    }
    assert forall|i: int| 0 <= i < next.repetitions.len() implies next.has_cell(
        (#[trigger] next.repetitions[i]).cell_id,
    ) by {
        assert(s.has_cell(s.repetitions[i].cell_id));
    }
}

/// Adding folders one after the other adds them all.
pub proof fn lemma_with_new_folders_push(s: TablesView, paths: Seq<Seq<char>>, path: Seq<char>)
    ensures
        s.with_new_folders(paths.push(path)) == s.with_new_folders(paths).with_node(path, true),
{
    assert(s.with_new_folders(paths.push(path)).files =~= s.with_new_folders(paths).with_node(
        path,
        true,
    ).files);
}

/// Adds a folder at each of `paths`.
fn append_folders(tables: &mut Tables, paths: &Vec<String>)
    requires
        old(tables)@.wf(),
        old(tables)@.last_file_id + paths@.len() <= i32::MAX,
        forall|k: int|
            0 <= k < paths@.len() ==> is_stored_path(#[trigger] text_views(paths@)[k])
                && !path_taken(old(tables)@.files, text_views(paths@)[k], true),
        forall|k: int, l: int|
            0 <= k < l < paths@.len() ==> (#[trigger] text_views(paths@)[k]).len() < (
            #[trigger] text_views(paths@)[l]).len(),
    ensures
        final(tables)@ == old(tables)@.with_new_folders(text_views(paths@)),
        final(tables)@.wf(),
{
    let mut k: usize = 0;
    assert(tables@ =~= old(tables)@.with_new_folders(text_views(paths@).take(0)));
    while k < paths.len()
        invariant
            k <= paths@.len(),
            old(tables)@.wf(),
            old(tables)@.last_file_id + paths@.len() <= i32::MAX,
            forall|k: int|
                0 <= k < paths@.len() ==> is_stored_path(#[trigger] text_views(paths@)[k])
                    && !path_taken(old(tables)@.files, text_views(paths@)[k], true),
            forall|k: int, l: int|
                0 <= k < l < paths@.len() ==> (#[trigger] text_views(paths@)[k]).len() < (
                #[trigger] text_views(paths@)[l]).len(),
            tables@ == old(tables)@.with_new_folders(text_views(paths@).take(k as int)),
            tables@.wf(),
        decreases paths@.len() - k,
    {
        let ghost before = tables@;
        let ghost path = text_views(paths@)[k as int];
        proof {
            assert(!path_taken(before.files, path, true)) by {
                if path_taken(before.files, path, true) {
                    let w = choose|w: int|
                        0 <= w < before.files.len() && (#[trigger] before.files[w]).path == path
                            && before.files[w].is_folder == true;
                    if w < old(tables)@.files.len() {
                        assert(old(tables)@.files[w].path == path);
                    } else {
                        let earlier = w - old(tables)@.files.len();
                        assert(text_views(paths@).take(k as int)[earlier] == text_views(
                            paths@,
                        )[earlier]);
                    }
                }
            }
            lemma_with_node_wf(before, path, true);
            lemma_with_new_folders_push(
                old(tables)@,
                text_views(paths@).take(k as int),
                path,
            );
            assert(text_views(paths@).take(k as int).push(path) =~= text_views(paths@).take(
                k as int + 1,
            ));
        }
        let id = tables.last_file_id + 1;
        tables.files.push(file::Model { id, path: paths[k].clone(), is_folder: true });
        tables.last_file_id = id;
        assert(tables@ =~= before.with_node(path, true));
        k = k + 1;
    }
    assert(text_views(paths@).take(paths@.len() as int) =~= text_views(paths@));
}

/// Creates the folder at `path`, and every folder on the way to it that is
/// missing. `path` is taken without the separators that surround it. Returns
/// the id of the folder.
pub fn create_folder(store: &mut Store, path: String) -> (result: Result<i32, ServiceError>)
    ensures
        delivers_id(old(store)@, final(store)@, result, created_folder(old(store)@, path@)),
        final(store)@.wf(),
{
    let trimmed = trim_matches_separator(path.as_str());
    if is_blank_text(trimmed.as_str()) {
        let _ = store.tables();
        return Err(ServiceError::EmptyName);
    }
    let tables = store.tables();
    if path_is_taken(&tables.files, &trimmed, true) {
        return Err(ServiceError::AlreadyExists);
    }
    let missing = missing_folder_paths(&tables.files, trimmed.as_str());
    if missing.len() > (i32::MAX - tables.last_file_id) as usize {
        return Err(ServiceError::Persistence(StoreFault::IdsExhausted));
    }
    proof {
        lemma_trimmed(path@);
        lemma_missing_upto(tables@.files, trimmed@, trimmed@.len());
    }
    let mut owned = store.take();
    append_folders(&mut owned, &missing);
    let id = owned.last_file_id;
    store.replace(owned);
    Ok(id)
}

/// Creates the file at `path`, and every folder on the way to it that is
/// missing. `path` is taken without the separators that surround it. Returns
/// the id of the file.
pub fn create_file(store: &mut Store, path: String) -> (result: Result<i32, ServiceError>)
    ensures
        delivers_id(old(store)@, final(store)@, result, created_file(old(store)@, path@)),
        final(store)@.wf(),
{
    let trimmed = trim_matches_separator(path.as_str());
    if is_blank_text(trimmed.as_str()) {
        let _ = store.tables();
        return Err(ServiceError::EmptyName);
    }
    let tables = store.tables();
    if path_is_taken(&tables.files, &trimmed, false) {
        return Err(ServiceError::AlreadyExists);
    }
    let parent = get_folder_path(trimmed.as_str());
    let missing = missing_folder_paths(&tables.files, parent.as_str());
    if missing.len() >= (i32::MAX - tables.last_file_id) as usize {
        return Err(ServiceError::Persistence(StoreFault::IdsExhausted));
    }
    proof {
        lemma_trimmed(path@);
        lemma_split(trimmed@);
        lemma_missing_upto(tables@.files, parent@, parent@.len());
    }
    let mut owned = store.take();
    append_folders(&mut owned, &missing);
    proof {
        assert(!path_taken(owned@.files, trimmed@, false)) by {
            if path_taken(owned@.files, trimmed@, false) {
                let w = choose|w: int|
                    0 <= w < owned@.files.len() && (#[trigger] owned@.files[w]).path == trimmed@
                        && owned@.files[w].is_folder == false;
                if w < old(store)@.files.len() {
                    assert(old(store)@.files[w].path == trimmed@);
                }
            }
        }
        lemma_with_node_wf(owned@, trimmed@, false);
    }
    let ghost with_folders = owned@;
    let id = owned.last_file_id + 1;
    owned.files.push(file::Model { id, path: trimmed, is_folder: false });
    owned.last_file_id = id;
    assert(owned@ =~= with_folders.with_node(trimmed@, false));
    store.replace(owned);
    Ok(id)
}

/// The test that keeps the nodes other than `id` and, where `folder` is the
/// path of a folder, other than those below it.
pub open spec fn survives(id: int, folder: Option<Seq<char>>) -> spec_fn(file::ModelView) -> bool {
    |row: file::ModelView|
        row.id != id && match folder {
            Some(path) => !is_below(row.path, path),
            None => true,
        }
}

/// What `delete_file` leads to: the tables without the node `id`, its cells
/// and their repetitions.
pub open spec fn deleted_file(s: TablesView, id: int) -> Result<TablesView, ServiceError> {
    if !s.has_node(id) {
        Err(ServiceError::NotFound)
    } else {
        Ok(s.keeping_nodes(survives(id, None)))
    }
}

/// What `delete_folder` leads to: the tables without the node `id` and the
/// nodes below it, their cells and the repetitions of those.
pub open spec fn deleted_folder(s: TablesView, id: int) -> Result<TablesView, ServiceError> {
    if !s.has_node(id) {
        Err(ServiceError::NotFound)
    } else {
        Ok(s.keeping_nodes(survives(id, Some(s.node(id).path))))
    }
}

/// Drops the node `id` and, where `folder` is given, the nodes below it.
fn drop_nodes(tables: &mut Tables, id: i32, folder: Option<&String>)
    ensures
        final(tables)@ == (TablesView {
            files: old(tables)@.files.filter(
                survives(
                    id as int,
                    match folder {
                        Some(path) => Some(path@),
                        None => None,
                    },
                ),
            ),
            ..old(tables)@
        }),
{
    let ghost before = tables@;
    let ghost keep = survives(
        id as int,
        match folder {
            Some(path) => Some(path@),
            None => None,
        },
    );
    let mut files: Vec<file::Model> = Vec::new();
    core::mem::swap(&mut tables.files, &mut files);
    let ghost all_files = file_views(files@);
    proof {
        lemma_filter_empty(keep);
        assert(all_files.take(0) =~= Seq::<file::ModelView>::empty());
    }
    for row in it: files
        invariant
            all_files == file_views(it.seq()),
            all_files == before.files,
            keep == survives(
                id as int,
                match folder {
                    Some(path) => Some(path@),
                    None => None,
                },
            ),
            tables.cells == old(tables).cells,
            tables.repetitions == old(tables).repetitions,
            tables.reviews == old(tables).reviews,
            tables.last_file_id == old(tables).last_file_id,
            tables.last_cell_id == old(tables).last_cell_id,
            tables.last_repetition_id == old(tables).last_repetition_id,
            tables.last_review_id == old(tables).last_review_id,
            tables@.files == all_files.take(it.index() as int).filter(keep),
    {
        proof {
            lemma_filter_take_next(all_files, it.index() as int, keep);
        }
        let ghost kept = tables@.files;
        let below = match folder {
            Some(path) => is_below_folder(row.path.as_str(), path.as_str()),
            None => false,
        };
        if row.id != id && !below {
            tables.files.push(row);
            assert(tables@.files =~= kept.push(row@));
        }
    }
    assert(all_files.take(all_files.len() as int) =~= all_files);
}

/// Deletes the node `id` with its cells and their repetitions.
pub fn delete_file(store: &mut Store, file_id: i32) -> (result: Result<(), ServiceError>)
    ensures
        delivers(old(store)@, final(store)@, result, deleted_file(old(store)@, file_id as int)),
        final(store)@.wf(),
{
    if store.tables().find_node(file_id).is_none() {
        return Err(ServiceError::NotFound);
    }
    let mut owned = store.take();
    drop_nodes(&mut owned, file_id, None);
    owned.cascade();
    proof {
        lemma_keeping_nodes_wf(old(store)@, survives(file_id as int, None));
    }
    store.replace(owned);
    Ok(())
}

/// Deletes the folder `id` and every node below it, with the cells of all of
/// them and the repetitions of those cells.
pub fn delete_folder(store: &mut Store, folder_id: i32) -> (result: Result<(), ServiceError>)
    ensures
        delivers(
            old(store)@,
            final(store)@,
            result,
            deleted_folder(old(store)@, folder_id as int),
        ),
        final(store)@.wf(),
{
    let tables = store.tables();
    let folder_path = match tables.find_node(folder_id) {
        None => {
            return Err(ServiceError::NotFound);
        },
        Some(i) => {
            proof {
                lemma_node_at(tables@, i as int);
            }
            tables.files[i].path.clone()
        },
    };
    let mut owned = store.take();
    drop_nodes(&mut owned, folder_id, Some(&folder_path));
    owned.cascade();
    proof {
        lemma_keeping_nodes_wf(old(store)@, survives(folder_id as int, Some(folder_path@)));
    }
    store.replace(owned);
    Ok(())
}

/// The rewriting of paths by which the node `id` comes to stand at
/// `new_path`. Where `subtree` is the path that the node had, every node
/// below that path follows: the start of its path is replaced, and what comes
/// after it stays.
pub open spec fn relocated(id: int, subtree: Option<Seq<char>>, new_path: Seq<char>) -> spec_fn(
    file::ModelView,
) -> file::ModelView {
    |row: file::ModelView|
        if row.id == id {
            file::ModelView { path: new_path, ..row }
        } else if subtree is Some && is_below(row.path, subtree->0) {
            file::ModelView { path: rebased(row.path, subtree->0.len() as int, new_path), ..row }
        } else {
            row
        }
}

impl TablesView {
    /// The path of the folder that a node is moved into: the root's, which is
    /// empty, for 0.
    pub open spec fn destination_path(self, destination_folder_id: int) -> Seq<char> {
        if destination_folder_id == 0 {
            Seq::empty()
        } else {
            self.node(destination_folder_id).path
        }
    }
}

/// What `move_file` leads to.
pub open spec fn moved_file(s: TablesView, id: int, destination_folder_id: int) -> Result<
    TablesView,
    ServiceError,
> {
    let node = s.node(id);
    let to = s.destination_path(destination_folder_id);
    let new_path = join(to, basename(node.path));
    let files = s.files.map_values(relocated(id, None, new_path));
    if !s.has_node(id) || (destination_folder_id != 0 && !s.has_node(destination_folder_id)) {
        Err(ServiceError::NotFound)
    } else if to == parent_path(node.path) {
        Ok(s)
    } else if s.file_exists(new_path) {
        Err(ServiceError::NameCollision)
    } else if !paths_unique(files) {
        Err(ServiceError::Persistence(StoreFault::DuplicatePath))
    } else {
        Ok(TablesView { files, ..s })
    }
}

/// What `move_folder` leads to.
pub open spec fn moved_folder(s: TablesView, id: int, destination_folder_id: int) -> Result<
    TablesView,
    ServiceError,
> {
    let node = s.node(id);
    let to = s.destination_path(destination_folder_id);
    let new_path = join(to, basename(node.path));
    let files = s.files.map_values(relocated(id, Some(node.path), new_path));
    if !s.has_node(id) || (destination_folder_id != 0 && !s.has_node(destination_folder_id)) {
        Err(ServiceError::NotFound)
    } else if to == node.path || to == parent_path(node.path) {
        Ok(s)
    } else if is_below(to, node.path) {
        Err(ServiceError::InvalidMove)
    } else if s.folder_exists(new_path) {
        Err(ServiceError::NameCollision)
    } else if !paths_unique(files) {
        Err(ServiceError::Persistence(StoreFault::DuplicatePath))
    } else {
        Ok(TablesView { files, ..s })
    }
}

/// What `rename_file` leads to.
pub open spec fn renamed_file(s: TablesView, id: int, raw_name: Seq<char>) -> Result<
    TablesView,
    ServiceError,
> {
    let name = trim_separators(raw_name);
    let node = s.node(id);
    let new_path = with_renamed_basename(node.path, name);
    let files = s.files.map_values(relocated(id, None, new_path));
    let next = (TablesView { files, ..s }).with_folders(parent_path(new_path));
    if is_blank(name) {
        Err(ServiceError::EmptyName)
    } else if !s.has_node(id) {
        Err(ServiceError::NotFound)
    } else if node.path == new_path {
        Ok(s)
    } else if s.file_exists(new_path) {
        Err(ServiceError::AlreadyExists)
    } else if !paths_unique(files) {
        Err(ServiceError::Persistence(StoreFault::DuplicatePath))
    } else if next.last_file_id > i32::MAX {
        Err(ServiceError::Persistence(StoreFault::IdsExhausted))
    } else {
        Ok(next)
    }
}

/// What `rename_folder` leads to.
pub open spec fn renamed_folder(s: TablesView, id: int, raw_name: Seq<char>) -> Result<
    TablesView,
    ServiceError,
> {
    let name = trim_separators(raw_name);
    let node = s.node(id);
    let new_path = with_renamed_basename(node.path, name);
    let files = s.files.map_values(relocated(id, Some(node.path), new_path));
    let next = (TablesView { files, ..s }).with_folders(parent_path(new_path));
    if is_blank(name) {
        Err(ServiceError::EmptyName)
    } else if !s.has_node(id) {
        Err(ServiceError::NotFound)
    } else if s.folder_exists(new_path) {
        Err(ServiceError::AlreadyExists)
    } else if !paths_unique(files) {
        Err(ServiceError::Persistence(StoreFault::DuplicatePath))
    } else if next.last_file_id > i32::MAX {
        Err(ServiceError::Persistence(StoreFault::IdsExhausted))
    } else {
        Ok(next)
    }
}

/// Rewritten paths that are unique keep the tables well formed.
pub proof fn lemma_relocated_wf(
    s: TablesView,
    id: int,
    subtree: Option<Seq<char>>,
    new_path: Seq<char>,
)
    requires
        s.wf(),
        is_stored_path(new_path),
        paths_unique(s.files.map_values(relocated(id, subtree, new_path))),
    ensures
        (TablesView { files: s.files.map_values(relocated(id, subtree, new_path)), ..s }).wf(),
{
    let files = s.files.map_values(relocated(id, subtree, new_path));
    let next = TablesView { files, ..s };
    assert forall|i: int| 0 <= i < files.len() implies is_stored_path(
        (#[trigger] files[i]).path,
    ) by {
        let row = s.files[i];
        assert(is_stored_path(row.path));
        if row.id != id && subtree is Some && is_below(row.path, subtree->0) {
            let old_path = subtree->0;
            let moved = rebased(row.path, old_path.len() as int, new_path);
            let rest = row.path.subrange(old_path.len() as int, row.path.len() as int);
            assert(rest.len() > 0);
            assert(moved.last() == rest.last());
            assert(moved.first() == new_path.first());
        }
    }
    assert forall|i: int| 0 <= i < next.cells.len() implies next.has_node(
        (#[trigger] next.cells[i]).file_id,
    ) by {
        let w = choose|w: int|
            0 <= w < s.files.len() && (#[trigger] s.files[w]).id == s.cells[i].file_id;
        assert(files[w].id == s.cells[i].file_id);
    }
    assert forall|i: int| 0 <= i < next.repetitions.len() implies next.has_node(
        (#[trigger] next.repetitions[i]).file_id,
    ) && next.has_cell(next.repetitions[i].cell_id) by {
        let w = choose|w: int|
            0 <= w < s.files.len() && (#[trigger] s.files[w]).id == s.repetitions[i].file_id;
        assert(files[w].id == s.repetitions[i].file_id);
        assert(s.has_cell(s.repetitions[i].cell_id));
    }
    assert forall|i: int, j: int| 0 <= i < j < files.len() implies (#[trigger] files[i]).id < (
    #[trigger] files[j]).id by {
        assert(s.files[i].id < s.files[j].id);
    }
    assert forall|i: int| 0 <= i < files.len() implies 1 <= (#[trigger] files[i]).id
        <= next.last_file_id by {
        assert(1 <= s.files[i].id);
    }
}

/// The nodes of `files` with their paths rewritten.
fn relocate(files: &Vec<file::Model>, id: i32, subtree: Option<&String>, new_path: &String) -> (moved:
    Vec<file::Model>)
    ensures
        file_views(moved@) == file_views(files@).map_values(
            relocated(
                id as int,
                match subtree {
                    Some(path) => Some(path@),
                    None => None,
                },
                new_path@,
            ),
        ),
{
    let ghost rewrite = relocated(
        id as int,
        match subtree {
            Some(path) => Some(path@),
            None => None,
        },
        new_path@,
    );
    let mut moved: Vec<file::Model> = Vec::new();
    let mut i: usize = 0;
    while i < files.len()
        invariant
            i <= files@.len(),
            moved@.len() == i,
            rewrite == relocated(
                id as int,
                match subtree {
                    Some(path) => Some(path@),
                    None => None,
                },
                new_path@,
            ),
            forall|j: int| 0 <= j < i ==> (#[trigger] moved@[j])@ == rewrite(files@[j]@),
        decreases files@.len() - i,
    {
        let row = &files[i];
        let path = if row.id == id {
            new_path.clone()
        } else {
            match subtree {
                Some(old_path) => {
                    if is_below_folder(row.path.as_str(), old_path.as_str()) {
                        rebase(row.path.as_str(), old_path.as_str().unicode_len(), new_path.as_str())
                    } else {
                        row.path.clone()
                    }
                },
                None => row.path.clone(),
            }
        };
        moved.push(file::Model { id: row.id, path, is_folder: row.is_folder });
        i = i + 1;
    }
    assert(file_views(moved@) =~= file_views(files@).map_values(rewrite));
    moved
}

/// The path of the folder that a node is moved into.
fn destination_of(tables: &Tables, destination_folder_id: i32) -> (found: Option<String>)
    requires
        tables@.wf(),
    ensures
        match found {
            Some(path) => path@ == tables@.destination_path(destination_folder_id as int) && (
            destination_folder_id == 0 || tables@.has_node(destination_folder_id as int)) && (
            path@.len() == 0 || is_stored_path(path@)),
            None => destination_folder_id != 0 && !tables@.has_node(destination_folder_id as int),
        },
{
    if destination_folder_id == 0 {
        Some(String::new())
    } else {
        match tables.find_node(destination_folder_id) {
            Some(i) => {
                proof {
                    lemma_node_at(tables@, i as int);
                }
                Some(tables.files[i].path.clone())
            },
            None => None,
        }
    }
}

/// Moves the file `file_id` into the folder `destination_folder_id`, or into
/// the root where that is 0. Nothing happens where the file is there already.
pub fn move_file(store: &mut Store, file_id: i32, destination_folder_id: i32) -> (result: Result<
    (),
    ServiceError,
>)
    ensures
        delivers(
            old(store)@,
            final(store)@,
            result,
            moved_file(old(store)@, file_id as int, destination_folder_id as int),
        ),
        final(store)@.wf(),
{
    let tables = store.tables();
    let at = match tables.find_node(file_id) {
        Some(i) => i,
        None => {
            return Err(ServiceError::NotFound);
        },
    };
    proof {
        lemma_node_at(tables@, at as int);
    }
    let destination_path = match destination_of(tables, destination_folder_id) {
        Some(path) => path,
        None => {
            return Err(ServiceError::NotFound);
        },
    };
    let old_path = &tables.files[at].path;
    if destination_path == get_folder_path(old_path.as_str()) {
        return Ok(());
    }
    let new_path = join_path(destination_path.as_str(), get_file_name(old_path.as_str()).as_str());
    if path_is_taken(&tables.files, &new_path, false) {
        return Err(ServiceError::NameCollision);
    }
    let files = relocate(&tables.files, file_id, None, &new_path);
    if !all_paths_unique(&files) {
        return Err(ServiceError::Persistence(StoreFault::DuplicatePath));
    }
    proof {
        lemma_split(old_path@);
        lemma_relocated_wf(tables@, file_id as int, None, new_path@);
    }
    let mut owned = store.take();
    owned.files = files;
    store.replace(owned);
    Ok(())
}

/// Moves the folder `folder_id`, with all that lies below it, into the folder
/// `destination_folder_id`, or into the root where that is 0. Nothing happens
/// where the destination is the folder itself or the folder that holds it.
pub fn move_folder(store: &mut Store, folder_id: i32, destination_folder_id: i32) -> (result:
    Result<(), ServiceError>)
    ensures
        delivers(
            old(store)@,
            final(store)@,
            result,
            moved_folder(old(store)@, folder_id as int, destination_folder_id as int),
        ),
        final(store)@.wf(),
{
    let tables = store.tables();
    let at = match tables.find_node(folder_id) {
        Some(i) => i,
        None => {
            return Err(ServiceError::NotFound);
        },
    };
    proof {
        lemma_node_at(tables@, at as int);
    }
    let destination_path = match destination_of(tables, destination_folder_id) {
        Some(path) => path,
        None => {
            return Err(ServiceError::NotFound);
        },
    };
    let old_path = &tables.files[at].path;
    if destination_path == *old_path || destination_path == get_folder_path(old_path.as_str()) {
        return Ok(());
    }
    if is_below_folder(destination_path.as_str(), old_path.as_str()) {
        return Err(ServiceError::InvalidMove);
    }
    let new_path = join_path(destination_path.as_str(), get_file_name(old_path.as_str()).as_str());
    if path_is_taken(&tables.files, &new_path, true) {
        return Err(ServiceError::NameCollision);
    }
    let files = relocate(&tables.files, folder_id, Some(old_path), &new_path);
    if !all_paths_unique(&files) {
        return Err(ServiceError::Persistence(StoreFault::DuplicatePath));
    }
    proof {
        lemma_split(old_path@);
        lemma_relocated_wf(tables@, folder_id as int, Some(old_path@), new_path@);
    }
    let mut owned = store.take();
    owned.files = files;
    store.replace(owned);
    Ok(())
}

/// A path whose last name is replaced by a name that can be stored can be
/// stored, and so can the folder that holds it.
pub proof fn lemma_renamed_is_stored(path: Seq<char>, name: Seq<char>)
    requires
        is_stored_path(path),
        is_stored_path(name),
    ensures
        is_stored_path(with_renamed_basename(path, name)),
{
    lemma_last_separator(path);
}

/// Gives the node `id` the path `new_path`, takes what lies below `subtree`
/// with it, and creates the folders on the way to `new_path` that are missing.
fn rename_node(
    store: &mut Store,
    id: i32,
    subtree: Option<&String>,
    new_path: &String,
) -> (result: Result<(), ServiceError>)
    requires
        is_stored_path(new_path@),
    ensures
        ({
            let s = old(store)@;
            let files = s.files.map_values(
                relocated(
                    id as int,
                    match subtree {
                        Some(path) => Some(path@),
                        None => None,
                    },
                    new_path@,
                ),
            );
            let next = (TablesView { files, ..s }).with_folders(parent_path(new_path@));
            delivers(
                s,
                final(store)@,
                result,
                if !paths_unique(files) {
                    Err(ServiceError::Persistence(StoreFault::DuplicatePath))
                } else if next.last_file_id > i32::MAX {
                    Err(ServiceError::Persistence(StoreFault::IdsExhausted))
                } else {
                    Ok(next)
                },
            )
        }),
        final(store)@.wf(),
{
    let tables = store.tables();
    let files = relocate(&tables.files, id, subtree, new_path);
    if !all_paths_unique(&files) {
        return Err(ServiceError::Persistence(StoreFault::DuplicatePath));
    }
    let parent = get_folder_path(new_path.as_str());
    let missing = missing_folder_paths(&files, parent.as_str());
    if missing.len() > (i32::MAX - tables.last_file_id) as usize {
        return Err(ServiceError::Persistence(StoreFault::IdsExhausted));
    }
    proof {
        lemma_relocated_wf(
            tables@,
            id as int,
            match subtree {
                Some(path) => Some(path@),
                None => None,
            },
            new_path@,
        );
        lemma_split(new_path@);
        lemma_missing_upto(file_views(files@), parent@, parent@.len());
    }
    let mut owned = store.take();
    owned.files = files;
    append_folders(&mut owned, &missing);
    store.replace(owned);
    Ok(())
}

/// Gives the file `file_id` the name `new_name`, taken without the separators
/// that surround it. A name that holds separators places the file in folders
/// below the one that holds it; those that are missing are created.
pub fn rename_file(store: &mut Store, file_id: i32, new_name: String) -> (result: Result<
    (),
    ServiceError,
>)
    ensures
        delivers(
            old(store)@,
            final(store)@,
            result,
            renamed_file(old(store)@, file_id as int, new_name@),
        ),
        final(store)@.wf(),
{
    let name = trim_matches_separator(new_name.as_str());
    let tables = store.tables();
    if is_blank_text(name.as_str()) {
        return Err(ServiceError::EmptyName);
    }
    let at = match tables.find_node(file_id) {
        Some(i) => i,
        None => {
            return Err(ServiceError::NotFound);
        },
    };
    proof {
        lemma_node_at(tables@, at as int);
        lemma_trimmed(new_name@);
        lemma_renamed_is_stored(tables@.files[at as int].path, name@);
    }
    let new_path = apply_new_name(tables.files[at].path.as_str(), name.as_str());
    if tables.files[at].path == new_path {
        return Ok(());
    }
    if path_is_taken(&tables.files, &new_path, false) {
        return Err(ServiceError::AlreadyExists);
    }
    rename_node(store, file_id, None, &new_path)
}

/// Gives the folder `folder_id` the name `new_name`, taken without the
/// separators that surround it, and takes all that lies below the folder with
/// it. A name that holds separators places the folder in folders below the
/// one that holds it; those that are missing are created.
pub fn rename_folder(store: &mut Store, folder_id: i32, new_name: String) -> (result: Result<
    (),
    ServiceError,
>)
    ensures
        delivers(
            old(store)@,
            final(store)@,
            result,
            renamed_folder(old(store)@, folder_id as int, new_name@),
        ),
        final(store)@.wf(),
{
    let name = trim_matches_separator(new_name.as_str());
    let tables = store.tables();
    if is_blank_text(name.as_str()) {
        return Err(ServiceError::EmptyName);
    }
    let at = match tables.find_node(folder_id) {
        Some(i) => i,
        None => {
            return Err(ServiceError::NotFound);
        },
    };
    proof {
        lemma_node_at(tables@, at as int);
        lemma_trimmed(new_name@);
        lemma_renamed_is_stored(tables@.files[at as int].path, name@);
    }
    let old_path = tables.files[at].path.clone();
    let new_path = apply_new_name(old_path.as_str(), name.as_str());
    if path_is_taken(&tables.files, &new_path, true) {
        return Err(ServiceError::AlreadyExists);
    }
    rename_node(store, folder_id, Some(&old_path), &new_path)
}

/// How a node is listed: a file with the number of its repetitions that are
/// due at `now`, by state; a folder without.
pub open spec fn listed_node(rows: Seq<repetition::ModelView>, now: Timestamp) -> spec_fn(
    file::ModelView,
) -> FileWithRepetitionsCountView {
    |node: file::ModelView|
        FileWithRepetitionsCountView {
            id: node.id,
            path: node.path,
            is_folder: node.is_folder,
            repetition_counts: if node.is_folder {
                None
            } else {
                Some(study_counts(rows, node.id, now))
            },
        }
}

/// The listed nodes in `rows` as the contracts see them.
pub open spec fn listing_views(rows: Seq<FileWithRepetitionsCount>) -> Seq<
    FileWithRepetitionsCountView,
> {
    rows.map_values(|row: FileWithRepetitionsCount| row@)
}

/// All nodes in the order of their ids, each file with the number of its
/// repetitions that are due at `now`.
pub fn get_files_at(store: &Store, now: Timestamp) -> (listed: Vec<FileWithRepetitionsCount>)
    ensures
        listing_views(listed@) == store@.files.map_values(
            listed_node(store@.repetitions, now),
        ),
{
    let tables = store.tables();
    let ghost wanted = store@.files.map_values(listed_node(store@.repetitions, now));
    let mut listed: Vec<FileWithRepetitionsCount> = Vec::new();
    let mut i: usize = 0;
    while i < tables.files.len()
        invariant
            i <= tables.files@.len(),
            tables@ == store@,
            wanted == store@.files.map_values(listed_node(store@.repetitions, now)),
            listed@.len() == i,
            forall|j: int| 0 <= j < i ==> (#[trigger] listed@[j])@ == wanted[j],
        decreases tables.files@.len() - i,
    {
        let node = &tables.files[i];
        assert(node@ == store@.files[i as int]);
        let repetition_counts = if node.is_folder {
            None
        } else {
            Some(get_study_repetition_counts_at(store, node.id, now))
        };
        listed.push(
            FileWithRepetitionsCount::new(
                node.id,
                node.path.clone(),
                node.is_folder,
                repetition_counts,
            ),
        );
        i = i + 1;
    }
    assert(listing_views(listed@) =~= wanted);
    listed
}

/// All nodes in the order of their ids, each file with the number of its
/// repetitions that are due at the time of the call.
pub fn get_files(store: &Store) -> (listed: Vec<FileWithRepetitionsCount>)
    ensures
        exists|now: Timestamp|
            listing_views(listed@) == store@.files.map_values(
                #[trigger] listed_node(store@.repetitions, now),
            ),
{
    let now = current_time();
    get_files_at(store, now)
}

} // verus!
