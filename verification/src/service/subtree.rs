//! How paths lie to each other in a subtree, and what stays of an exported
//! item when the store grows elsewhere.

use vstd::prelude::*;
use crate::dto::exported_item::ExportedItemView;
use crate::entity::file;
use crate::path::SEPARATOR;
use crate::path::chain_upto;
use crate::path::folder_chain;
use crate::path::is_below;
use crate::path::is_cut;
use crate::path::is_stored_path;
use crate::path::join;
use crate::path::last_separator;
use crate::path::lemma_last_separator;
use crate::path::lemma_last_separator_is;
use crate::path::parent_path;
use crate::seqs::kept_from;
use crate::seqs::lemma_filter_keeps_order;
use crate::seqs::lemma_filter_none;
use crate::service::cell_service::in_file;
use crate::service::export_import_service::is_child_of;
use crate::service::export_import_service::is_export_of;
use crate::service::file_service::is_missing;
use crate::service::file_service::missing_folders;
use crate::store::TablesView;

verus! {

/// Every folder that the chain of a path lists is a folder on the way to it.
pub proof fn lemma_chain_is_on_the_way(path: Seq<char>, upto: nat, k: int)
    requires
        upto <= path.len(),
        0 <= k < chain_upto(path, upto).len(),
    ensures
        exists|i: int|
            #[trigger] is_cut(path, i) && i <= upto && chain_upto(path, upto)[k] == path.take(i),
    decreases upto,
{
    if upto > 0 {
        let shorter = chain_upto(path, (upto - 1) as nat);
        if is_cut(path, upto as int) && k == shorter.len() {
            assert(is_cut(path, upto as int) && chain_upto(path, upto)[k] == path.take(
                upto as int,
            ));
        } else {
            lemma_chain_is_on_the_way(path, (upto - 1) as nat, k);
            let i = choose|i: int|
                #[trigger] is_cut(path, i) && i <= upto - 1 && shorter[k] == path.take(i);
            assert(is_cut(path, i) && i <= upto && chain_upto(path, upto)[k] == path.take(i));
        }
    }
}

/// A stored path lies below the folder that holds it, where that is not the
/// root.
pub proof fn lemma_child_is_below(path: Seq<char>)
    requires
        is_stored_path(path),
        parent_path(path).len() > 0,
    ensures
        is_below(path, parent_path(path)),
        path.len() > parent_path(path).len() + 1,
        last_separator(path) == parent_path(path).len(),
{
    lemma_last_separator(path);
    let parent = parent_path(path);
    assert((parent + seq![SEPARATOR]) =~= path.subrange(0, parent.len() as int + 1));
}

/// The path of a name below a folder is held by that folder.
pub proof fn lemma_joined_child(folder: Seq<char>, path: Seq<char>, parent: Seq<char>)
    requires
        is_stored_path(path),
        is_stored_path(folder),
        parent.len() == 0 || is_stored_path(parent),
        parent_path(path) == folder,
    ensures
        parent_path(join(parent, path)) == join(parent, folder),
        is_stored_path(join(parent, path)),
        is_stored_path(join(parent, folder)),
        join(parent, path).len() - path.len() == join(parent, folder).len() - folder.len(),
{
    lemma_child_is_below(path);
    lemma_last_separator(path);
    if parent.len() > 0 {
        let whole = join(parent, path);
        let at = parent.len() + 1 + last_separator(path);
        assert forall|j: int| at < j < whole.len() implies whole[j] != SEPARATOR by {
            assert(whole[j] == path[j - parent.len() - 1]);
        }
        assert(whole[at] == path[last_separator(path)]);
        lemma_last_separator_is(whole, at);
        assert(whole.subrange(0, at) =~= join(parent, folder));
    }
}

/// What lies below a path that lies below a folder lies below the folder.
pub proof fn lemma_below_is_transitive(path: Seq<char>, middle: Seq<char>, folder: Seq<char>)
    requires
        is_below(path, middle),
        is_below(middle, folder),
    ensures
        is_below(path, folder),
{
    let long = middle + seq![SEPARATOR];
    let short = folder + seq![SEPARATOR];
    assert(path.subrange(0, short.len() as int) =~= short) by {
        assert forall|j: int| 0 <= j < short.len() implies path[j] == short[j] by {
            assert(path.subrange(0, long.len() as int)[j] == long[j]);
            assert(middle.subrange(0, short.len() as int)[j] == short[j]);
        }
    }
}

/// Two paths that one folder holds, and below both of which one path lies,
/// are the same path; and neither of two such paths lies below the other.
pub proof fn lemma_siblings(first: Seq<char>, second: Seq<char>, path: Seq<char>)
    requires
        is_stored_path(first),
        is_stored_path(second),
        parent_path(first) == parent_path(second),
        parent_path(first).len() > 0,
    ensures
        is_below(path, first) && is_below(path, second) ==> first == second,
        !is_below(first, second),
{
    lemma_child_is_below(first);
    lemma_child_is_below(second);
    lemma_last_separator(first);
    lemma_last_separator(second);
    let folder = parent_path(first);
    if is_below(first, second) {
        let prefix = second + seq![SEPARATOR];
        assert(first.subrange(0, prefix.len() as int)[second.len() as int] == SEPARATOR);
        assert(first[second.len() as int] == SEPARATOR);
    }
    if is_below(path, first) && is_below(path, second) {
        let one = first + seq![SEPARATOR];
        let two = second + seq![SEPARATOR];
        assert(path.subrange(0, one.len() as int) == one);
        assert(path.subrange(0, two.len() as int) == two);
        if first.len() < second.len() {
            assert(path.subrange(0, one.len() as int)[first.len() as int] == SEPARATOR);
            assert(path.subrange(0, two.len() as int)[first.len() as int] == second[first.len() as int]);
        } else if second.len() < first.len() {
            assert(path.subrange(0, two.len() as int)[second.len() as int] == SEPARATOR);
            assert(path.subrange(0, one.len() as int)[second.len() as int] == first[second.len() as int]);
        } else {
            assert(first =~= second) by {
                assert forall|j: int| 0 <= j < first.len() implies first[j] == second[j] by {
                    assert(path.subrange(0, one.len() as int)[j] == one[j]);
                    assert(path.subrange(0, two.len() as int)[j] == two[j]);
                }
            }
        }
    }
}

/// Whether `after` holds all that `before` holds, in the same places, and
/// besides only new rows: nodes and cells at the end of their tables, the
/// cells in nodes that `before` did not hold.
pub open spec fn grows_into(before: TablesView, after: TablesView) -> bool {
    &&& before.files.len() <= after.files.len()
    &&& after.files.take(before.files.len() as int) == before.files
    &&& before.cells.len() <= after.cells.len()
    &&& after.cells.take(before.cells.len() as int) == before.cells
    &&& forall|i: int|
        before.cells.len() <= i < after.cells.len() ==> (#[trigger] after.cells[i]).file_id
            > before.last_file_id
    &&& before.repetitions.len() <= after.repetitions.len()
    &&& after.repetitions.take(before.repetitions.len() as int) == before.repetitions
    &&& before.last_file_id <= after.last_file_id
    &&& before.last_cell_id <= after.last_cell_id
}

/// Growing twice is growing.
pub proof fn lemma_grows_on(first: TablesView, second: TablesView, third: TablesView)
    requires
        grows_into(first, second),
        grows_into(second, third),
    ensures
        grows_into(first, third),
{
    assert(third.files.take(first.files.len() as int) =~= first.files) by {
        assert forall|i: int| 0 <= i < first.files.len() implies third.files[i]
            == first.files[i] by {
            assert(third.files.take(second.files.len() as int)[i] == second.files[i]);
            assert(second.files.take(first.files.len() as int)[i] == first.files[i]);
        }
    }
    assert(third.cells.take(first.cells.len() as int) =~= first.cells) by {
        assert forall|i: int| 0 <= i < first.cells.len() implies third.cells[i]
            == first.cells[i] by {
            assert(third.cells.take(second.cells.len() as int)[i] == second.cells[i]);
            assert(second.cells.take(first.cells.len() as int)[i] == first.cells[i]);
        }
    }
    assert(third.repetitions.take(first.repetitions.len() as int) =~= first.repetitions) by {
        assert forall|i: int| 0 <= i < first.repetitions.len() implies third.repetitions[i]
            == first.repetitions[i] by {
            assert(third.repetitions.take(second.repetitions.len() as int)[i]
                == second.repetitions[i]);
            assert(second.repetitions.take(first.repetitions.len() as int)[i]
                == first.repetitions[i]);
        }
    }
    assert forall|i: int| first.cells.len() <= i < third.cells.len() implies (
    #[trigger] third.cells[i]).file_id > first.last_file_id by {
        if i < second.cells.len() {
            assert(third.cells.take(second.cells.len() as int)[i] == second.cells[i]);
        }
    }
}

/// What a node exports as stays what it is while the store grows, as long as
/// no new node comes to lie below the node.
pub proof fn lemma_export_stays(
    item: ExportedItemView,
    before: TablesView,
    after: TablesView,
    at: int,
    skip: int,
)
    requires
        before.wf(),
        after.wf(),
        grows_into(before, after),
        0 <= at < before.files.len(),
        is_export_of(item, before, before.files[at], skip),
        before.files[at].is_folder ==> forall|i: int|
            before.files.len() <= i < after.files.len() ==> !is_below(
                (#[trigger] after.files[i]).path,
                before.files[at].path,
            ),
    ensures
        is_export_of(item, after, before.files[at], skip),
    decreases item,
{
    let node = before.files[at];
    assert(is_stored_path(node.path));
    if node.is_folder {
        let wanted = is_child_of(node.path);
        let extra = after.files.skip(before.files.len() as int);
        assert(after.files =~= before.files + extra) by {
            assert forall|i: int| 0 <= i < before.files.len() implies after.files[i]
                == before.files[i] by {
                assert(after.files.take(before.files.len() as int)[i] == before.files[i]);
            }
        }
        assert forall|i: int| 0 <= i < extra.len() implies !wanted(#[trigger] extra[i]) by {
            let new = after.files[before.files.len() + i];
            assert(extra[i] == new);
            assert(is_stored_path(new.path));
            if wanted(new) {
                lemma_child_is_below(new.path);
            }
        }
        lemma_filter_none(extra, wanted);
        Seq::filter_distributes_over_add(before.files, extra, wanted);
        let below = before.files.filter(wanted);
        assert(after.files.filter(wanted) =~= below);
        lemma_filter_keeps_order(before.files, wanted);
        assert forall|i: int| 0 <= i < item.children->0.len() implies is_export_of(
            #[trigger] item.children->0[i],
            after,
            below[i],
            skip,
        ) by {
            let from = kept_from(before.files, wanted, i);
            assert(before.files[from] == below[i]);
            assert(is_stored_path(before.files[from].path));
            lemma_child_is_below(before.files[from].path);
            if before.files[from].is_folder {
                assert forall|k: int| before.files.len() <= k < after.files.len() implies !is_below(
                    (#[trigger] after.files[k]).path,
                    before.files[from].path,
                ) by {
                    if is_below(after.files[k].path, before.files[from].path) {
                        lemma_below_is_transitive(
                            after.files[k].path,
                            before.files[from].path,
                            node.path,
                        );
                    }
                }
            }
            lemma_export_stays(item.children->0[i], before, after, from, skip);
        }
    } else {
        let own = in_file(node.id);
        let extra = after.cells.skip(before.cells.len() as int);
        assert(after.cells =~= before.cells + extra) by {
            assert forall|i: int| 0 <= i < before.cells.len() implies after.cells[i]
                == before.cells[i] by {
                assert(after.cells.take(before.cells.len() as int)[i] == before.cells[i]);
            }
        }
        assert forall|i: int| 0 <= i < extra.len() implies !own(#[trigger] extra[i]) by {
            assert(extra[i] == after.cells[before.cells.len() + i]);
        }
        lemma_filter_none(extra, own);
        Seq::filter_distributes_over_add(before.cells, extra, own);
        assert(after.cells.filter(own) =~= before.cells.filter(own));
    }
}

/// Whether every folder on the way to the folder that holds `target` stands
/// in the store.
pub open spec fn way_exists(s: TablesView, target: Seq<char>) -> bool {
    forall|i: int|
        #[trigger] is_cut(parent_path(target), i) ==> s.folder_exists(
            parent_path(target).take(i),
        )
}

/// Whether no node lies below `path`.
pub open spec fn nothing_below(files: Seq<file::ModelView>, path: Seq<char>) -> bool {
    forall|i: int| 0 <= i < files.len() ==> !is_below((#[trigger] files[i]).path, path)
}

/// Where the way to a path exists, no folder on the way is missing.
pub proof fn lemma_no_folder_missing(s: TablesView, target: Seq<char>)
    requires
        way_exists(s, target),
    ensures
        missing_folders(s.files, parent_path(target)) == Seq::<Seq<char>>::empty(),
{
    let parent = parent_path(target);
    let chain = folder_chain(parent);
    assert forall|k: int| 0 <= k < chain.len() implies !is_missing(s.files)(
        #[trigger] chain[k],
    ) by {
        lemma_chain_is_on_the_way(parent, parent.len(), k);
        let i = choose|i: int|
            #[trigger] is_cut(parent, i) && i <= parent.len() && chain[k] == parent.take(i);
        assert(s.folder_exists(parent.take(i)));
    }
    lemma_filter_none(chain, is_missing(s.files));
}

/// A folder on the way to a path, but for the path itself, is on the way to
/// the folder that holds the path.
pub proof fn lemma_cut_of_parent(target: Seq<char>, i: int)
    requires
        is_stored_path(target),
        is_cut(target, i),
        i < target.len(),
    ensures
        is_cut(parent_path(target), i),
        parent_path(target).take(i) == target.take(i),
{
    lemma_last_separator(target);
    assert(parent_path(target).take(i) =~= target.take(i));
}

/// Where the way to a folder exists and the folder does not, the folder
/// alone is missing on the way to it.
pub proof fn lemma_only_target_missing(s: TablesView, target: Seq<char>)
    requires
        is_stored_path(target),
        way_exists(s, target),
        !s.folder_exists(target),
    ensures
        missing_folders(s.files, target) == seq![target],
{
    let shorter = chain_upto(target, (target.len() - 1) as nat);
    assert(is_cut(target, target.len() as int));
    assert(target.take(target.len() as int) =~= target);
    assert forall|k: int| 0 <= k < shorter.len() implies !is_missing(s.files)(
        #[trigger] shorter[k],
    ) by {
        lemma_chain_is_on_the_way(target, (target.len() - 1) as nat, k);
        let i = choose|i: int|
            #[trigger] is_cut(target, i) && i <= target.len() - 1 && shorter[k] == target.take(i);
        lemma_cut_of_parent(target, i);
        assert(s.folder_exists(parent_path(target).take(i)));
    }
    lemma_filter_none(shorter, is_missing(s.files));
    shorter.lemma_filter_push(target, is_missing(s.files));
    assert(Seq::<Seq<char>>::empty().push(target) =~= seq![target]);
}

/// A node that stands in a store stands in every store that it grows into.
pub proof fn lemma_path_persists(
    before: TablesView,
    after: TablesView,
    path: Seq<char>,
    is_folder: bool,
)
    requires
        grows_into(before, after),
        before.has_path(path, is_folder),
    ensures
        after.has_path(path, is_folder),
{
    let w = choose|w: int|
        0 <= w < before.files.len() && (#[trigger] before.files[w]).path == path
            && before.files[w].is_folder == is_folder;
    assert(after.files.take(before.files.len() as int)[w] == before.files[w]);
    assert(after.files[w].path == path);
}

} // verus!
