//! What holds of the hierarchy whatever the store: a folder is created once,
//! a file comes with the folders on the way to it, a folder takes what lies
//! below it along, and no folder moves into itself.

use vstd::prelude::*;
use crate::entity::file;
use crate::error::ServiceError;
use crate::path::chain_upto;
use crate::path::folder_chain;
use crate::path::is_below;
use crate::path::is_blank;
use crate::path::is_cut;
use crate::path::is_stored_path;
use crate::path::lemma_last_separator;
use crate::path::lemma_split;
use crate::path::lemma_trimmed;
use crate::path::parent_path;
use crate::path::trim_separators;
use crate::path::with_renamed_basename;
use crate::seqs::kept_from;
use crate::seqs::lemma_filter_keeps_order;
use crate::service::file_service::created_file;
use crate::service::file_service::lemma_with_new_folders_push;
use crate::service::file_service::lemma_with_node_wf;
use crate::service::file_service::lemma_missing_upto;
use crate::service::file_service::created_folder;
use crate::service::file_service::is_missing;
use crate::service::file_service::missing_folders;
use crate::service::file_service::moved_folder;
use crate::service::file_service::new_folders;
use crate::service::file_service::relocated;
use crate::service::file_service::renamed_folder;
use crate::store::path_taken;
use crate::store::TablesView;

verus! {

/// Whether `folder` is one of the folders on the way to `path`, `path`
/// itself included.
pub open spec fn is_on_the_way(folder: Seq<char>, path: Seq<char>) -> bool {
    exists|i: int| #[trigger] is_cut(path, i) && folder == path.take(i)
}

/// The folders on the way to a path are those that its chain lists.
pub proof fn lemma_chain_lists_cuts(path: Seq<char>, upto: nat, i: int)
    requires
        upto <= path.len(),
        is_cut(path, i),
        i <= upto,
    ensures
        chain_upto(path, upto).contains(path.take(i)),
    decreases upto,
{
    if i == upto {
        let last = chain_upto(path, (upto - 1) as nat).len() as int;
        assert(chain_upto(path, upto)[last] == path.take(i));
    } else {
        lemma_chain_lists_cuts(path, (upto - 1) as nat, i);
        let shorter = chain_upto(path, (upto - 1) as nat);
        let w = choose|w: int| 0 <= w < shorter.len() && #[trigger] shorter[w] == path.take(i);
        assert(chain_upto(path, upto)[w] == path.take(i));
    }
}

/// After the folders on the way to `path` were added, each of them stands in
/// the store, and the rows that were there are as they were.
pub proof fn lemma_with_folders(s: TablesView, path: Seq<char>, folder: Seq<char>)
    requires
        is_on_the_way(folder, path),
    ensures
        s.with_folders(path).folder_exists(folder),
        s.with_folders(path).files.take(s.files.len() as int) == s.files,
        s.with_folders(path).files.len() == s.files.len() + missing_folders(s.files, path).len(),
{
    let next = s.with_folders(path);
    let chain = folder_chain(path);
    let missing = missing_folders(s.files, path);
    assert(next.files.take(s.files.len() as int) =~= s.files);
    let i = choose|i: int| #[trigger] is_cut(path, i) && folder == path.take(i);
    lemma_chain_lists_cuts(path, path.len(), i);
    let k = choose|k: int| 0 <= k < chain.len() && #[trigger] chain[k] == folder;
    if path_taken(s.files, folder, true) {
        let w = choose|w: int|
            0 <= w < s.files.len() && (#[trigger] s.files[w]).path == folder && s.files[w].is_folder
                == true;
        assert(next.files[w] == s.files[w]);
    } else {
        lemma_filter_keeps_order(chain, is_missing(s.files));
        assert(is_missing(s.files)(chain[k]));
        let at = choose|at: int|
            0 <= at < missing.len() && #[trigger] kept_from(chain, is_missing(s.files), at) == k;
        let w = s.files.len() + at;
        assert(next.files[w] == new_folders(s.last_file_id + 1, missing)[at]);
        assert(next.files[w].path == folder && next.files[w].is_folder == true);
    }
}

/// A folder that was created cannot be created again: the second call fails
/// because the folder exists, whatever the store was before the first.
pub proof fn law_folder_is_created_once(s: TablesView, path: Seq<char>)
    requires
        created_folder(s, path) is Ok,
    ensures
        created_folder(created_folder(s, path)->Ok_0.0, path) == Err::<
            (TablesView, int),
            ServiceError,
        >(ServiceError::AlreadyExists),
{
    let trimmed = trim_separators(path);
    lemma_trimmed(path);
    assert(trimmed.len() > 0) by {
        if trimmed.len() == 0 {
            assert(is_blank(trimmed));
        }
    }
    assert(is_cut(trimmed, trimmed.len() as int));
    assert(trimmed.take(trimmed.len() as int) =~= trimmed);
    lemma_with_folders(s, trimmed, trimmed);
}

/// Creating a file leaves the rows that were there as they were, and adds
/// exactly the folders on the way to the file that were missing, and the
/// file: afterwards each of those folders and the file stand in the store.
pub proof fn law_file_comes_with_its_folders(s: TablesView, path: Seq<char>, folder: Seq<char>)
    requires
        created_file(s, path) is Ok,
        is_on_the_way(folder, parent_path(trim_separators(path))),
    ensures
        created_file(s, path)->Ok_0.0.folder_exists(folder),
        created_file(s, path)->Ok_0.0.file_exists(trim_separators(path)),
        created_file(s, path)->Ok_0.0.files.take(s.files.len() as int) == s.files,
        created_file(s, path)->Ok_0.0.files.len() == s.files.len() + missing_folders(
            s.files,
            parent_path(trim_separators(path)),
        ).len() + 1,
        forall|i: int|
            s.files.len() <= i < created_file(s, path)->Ok_0.0.files.len() - 1 ==> !path_taken(
                s.files,
                (#[trigger] created_file(s, path)->Ok_0.0.files[i]).path,
                true,
            ),
{
    let trimmed = trim_separators(path);
    let parent = parent_path(trimmed);
    let with_folders = s.with_folders(parent);
    let next = created_file(s, path)->Ok_0.0;
    lemma_with_folders(s, parent, folder);
    let w = choose|w: int|
        0 <= w < with_folders.files.len() && (#[trigger] with_folders.files[w]).path == folder
            && with_folders.files[w].is_folder == true;
    assert(next.files[w] == with_folders.files[w]);
    assert(next.files[with_folders.files.len() as int].path == trimmed);
    assert(next.files.take(s.files.len() as int) =~= with_folders.files.take(
        s.files.len() as int,
    ));
    let chain = folder_chain(parent);
    let missing = missing_folders(s.files, parent);
    lemma_filter_keeps_order(chain, is_missing(s.files));
    assert forall|i: int| s.files.len() <= i < next.files.len() - 1 implies !path_taken(
        s.files,
        (#[trigger] next.files[i]).path,
        true,
    ) by {
        let at = i - s.files.len();
        assert(next.files[i] == new_folders(s.last_file_id + 1, missing)[at]);
        let from = kept_from(chain, is_missing(s.files), at);
        assert(is_missing(s.files)(chain[from]));
    }
}

/// Renaming a folder gives the folder its new path, and every node below it
/// a path that starts with the new path and goes on as it did after the old
/// one. All other nodes keep their paths, and all nodes their ids and kinds.
pub proof fn law_rename_takes_descendants_along(s: TablesView, id: int, name: Seq<char>, i: int)
    requires
        s.wf(),
        renamed_folder(s, id, name) is Ok,
        0 <= i < s.files.len(),
    ensures
        ({
            let old_path = s.node(id).path;
            let new_path = with_renamed_basename(old_path, trim_separators(name));
            let before = s.files[i];
            let after = renamed_folder(s, id, name)->Ok_0.files[i];
            &&& after.id == before.id
            &&& after.is_folder == before.is_folder
            &&& before.id == id ==> after.path == new_path
            &&& before.id != id && is_below(before.path, old_path) ==> {
                &&& new_path.is_prefix_of(after.path)
                &&& after.path.subrange(new_path.len() as int, after.path.len() as int)
                    == before.path.subrange(old_path.len() as int, before.path.len() as int)
            }
            &&& before.id != id && !is_below(before.path, old_path) ==> after.path == before.path
        }),
{
    let old_path = s.node(id).path;
    let new_path = with_renamed_basename(old_path, trim_separators(name));
    let moved = s.files.map_values(relocated(id, Some(old_path), new_path));
    let next = renamed_folder(s, id, name)->Ok_0;
    assert(next.files[i] == moved[i]);
    let before = s.files[i];
    if before.id != id && is_below(before.path, old_path) {
        let rest = before.path.subrange(old_path.len() as int, before.path.len() as int);
        assert(moved[i].path == new_path + rest);
        assert((new_path + rest).subrange(0, new_path.len() as int) =~= new_path);
        assert((new_path + rest).subrange(
            new_path.len() as int,
            (new_path + rest).len() as int,
        ) =~= rest);
    }
}

/// A folder does not move into a folder below it: the call fails, and by its
/// contract leaves the store as it was.
pub proof fn law_folder_does_not_move_below_itself(s: TablesView, id: int, destination_folder_id: int)
    requires
        s.wf(),
        s.has_node(id),
        destination_folder_id != 0,
        s.has_node(destination_folder_id),
        is_below(s.node(destination_folder_id).path, s.node(id).path),
    ensures
        moved_folder(s, id, destination_folder_id) == Err::<TablesView, ServiceError>(
            ServiceError::InvalidMove,
        ),
{
    let own = s.node(id).path;
    let to = s.node(destination_folder_id).path;
    lemma_last_separator(own);
    assert(to.len() > own.len());
    assert(parent_path(own).len() <= own.len());
}

/// A folder that is moved into itself stays where it is, and so does all
/// else.
pub proof fn law_folder_moved_into_itself_stays(s: TablesView, id: int)
    requires
        s.has_node(id),
        id != 0,
    ensures
        moved_folder(s, id, id) == Ok::<TablesView, ServiceError>(s),
{
}

/// Folders that can be stored, that are missing and that differ in length
/// keep the tables well formed.
pub proof fn lemma_with_new_folders_wf(s: TablesView, paths: Seq<Seq<char>>)
    requires
        s.wf(),
        s.last_file_id + paths.len() <= i32::MAX,
        forall|k: int|
            0 <= k < paths.len() ==> is_stored_path(#[trigger] paths[k]) && !path_taken(
                s.files,
                paths[k],
                true,
            ),
        forall|k: int, l: int|
            0 <= k < l < paths.len() ==> (#[trigger] paths[k]).len() < (#[trigger] paths[l]).len(),
    ensures
        s.with_new_folders(paths).wf(),
    decreases paths.len(),
{
    if paths.len() == 0 {
        assert(s.with_new_folders(paths).files =~= s.files);
    } else {
        let front = paths.drop_last();
        lemma_with_new_folders_wf(s, front);
        let mid = s.with_new_folders(front);
        assert(!path_taken(mid.files, paths.last(), true)) by {
            if path_taken(mid.files, paths.last(), true) {
                let w = choose|w: int|
                    0 <= w < mid.files.len() && (#[trigger] mid.files[w]).path == paths.last()
                        && mid.files[w].is_folder == true;
                if w < s.files.len() {
                    assert(s.files[w].path == paths.last());
                } else {
                    assert(front[w - s.files.len()] == paths[w - s.files.len()]);
                }
            }
        }
        lemma_with_node_wf(mid, paths.last(), true);
        lemma_with_new_folders_push(s, front, paths.last());
        assert(front.push(paths.last()) =~= paths);
    }
}

/// Creating a file keeps the tables well formed.
pub proof fn lemma_created_file_wf(s: TablesView, path: Seq<char>)
    requires
        s.wf(),
        created_file(s, path) is Ok,
    ensures
        created_file(s, path)->Ok_0.0.wf(),
        created_file(s, path)->Ok_0.1 == created_file(s, path)->Ok_0.0.last_file_id,
        created_file(s, path)->Ok_0.1 > s.last_file_id,
        created_file(s, path)->Ok_0.0.cells == s.cells,
        created_file(s, path)->Ok_0.0.repetitions == s.repetitions,
        created_file(s, path)->Ok_0.0.last_cell_id == s.last_cell_id,
{
    let trimmed = trim_separators(path);
    lemma_trimmed(path);
    assert(trimmed.len() > 0) by {
        if trimmed.len() == 0 {
            assert(is_blank(trimmed));
        }
    }
    lemma_split(trimmed);
    let parent = parent_path(trimmed);
    let missing = missing_folders(s.files, parent);
    lemma_missing_upto(s.files, parent, parent.len());
    lemma_with_new_folders_wf(s, missing);
    let with_folders = s.with_folders(parent);
    assert(!path_taken(with_folders.files, trimmed, false)) by {
        if path_taken(with_folders.files, trimmed, false) {
            let w = choose|w: int|
                0 <= w < with_folders.files.len() && (#[trigger] with_folders.files[w]).path
                    == trimmed && with_folders.files[w].is_folder == false;
            if w < s.files.len() {
                assert(s.files[w].path == trimmed);
            }
        }
    }
    lemma_with_node_wf(with_folders, trimmed, false);
}

} // verus!
