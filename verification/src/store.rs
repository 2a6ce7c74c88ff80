//! The store: four tables and the last id each of them has given out.
//!
//! `Tables` is plain data. `Store` holds tables that are well formed, and
//! gives them out only to read: the services compute the tables that an
//! operation leads to and hand them back whole, so that an operation either
//! takes place entirely or leaves the store as it was.

use vstd::prelude::*;
use crate::entity::cell;
use crate::entity::file;
use crate::entity::repetition;
use crate::entity::review;
use crate::seqs::kept_from;
use crate::seqs::lemma_filter_empty;
use crate::seqs::lemma_filter_keeps_order;
use crate::seqs::lemma_filter_take_next;

verus! {

/// The rows of the store and, for each table, the last id given out. Ids
/// start at 1 and are never given out twice.
pub struct Tables {
    pub files: Vec<file::Model>,
    pub cells: Vec<cell::Model>,
    pub repetitions: Vec<repetition::Model>,
    pub reviews: Vec<review::Model>,
    pub last_file_id: i32,
    pub last_cell_id: i32,
    pub last_repetition_id: i32,
    pub last_review_id: i32,
}

/// The tables as the contracts see them.
#[verifier::ext_equal]
pub struct TablesView {
    pub files: Seq<file::ModelView>,
    pub cells: Seq<cell::ModelView>,
    pub repetitions: Seq<repetition::ModelView>,
    pub reviews: Seq<review::Model>,
    pub last_file_id: int,
    pub last_cell_id: int,
    pub last_repetition_id: int,
    pub last_review_id: int,
}

/// The nodes in `rows` as the contracts see them.
pub open spec fn file_views(rows: Seq<file::Model>) -> Seq<file::ModelView> {
    rows.map_values(|row: file::Model| row@)
}

/// The cells in `rows` as the contracts see them.
pub open spec fn cell_views(rows: Seq<cell::Model>) -> Seq<cell::ModelView> {
    rows.map_values(|row: cell::Model| row@)
}

/// The repetitions in `rows` as the contracts see them.
pub open spec fn repetition_views(rows: Seq<repetition::Model>) -> Seq<repetition::ModelView> {
    rows.map_values(|row: repetition::Model| row@)
}

impl View for Tables {
    type V = TablesView;

    open spec fn view(&self) -> TablesView {
        TablesView {
            files: file_views(self.files@),
            cells: cell_views(self.cells@),
            repetitions: repetition_views(self.repetitions@),
            reviews: self.reviews@,
            last_file_id: self.last_file_id as int,
            last_cell_id: self.last_cell_id as int,
            last_repetition_id: self.last_repetition_id as int,
            last_review_id: self.last_review_id as int,
        }
    }
}

/// Whether a node among `files` has the id `id`.
pub open spec fn holds_node(files: Seq<file::ModelView>, id: int) -> bool {
    exists|i: int| 0 <= i < files.len() && (#[trigger] files[i]).id == id
}

/// Whether a cell among `cells` has the id `id`.
pub open spec fn holds_cell(cells: Seq<cell::ModelView>, id: int) -> bool {
    exists|i: int| 0 <= i < cells.len() && (#[trigger] cells[i]).id == id
}

/// The test that keeps the cells of the nodes among `files`.
pub open spec fn belongs_to(files: Seq<file::ModelView>) -> spec_fn(cell::ModelView) -> bool {
    |row: cell::ModelView| holds_node(files, row.file_id)
}

/// The test that keeps the repetitions of the nodes among `files` and of the
/// cells among `cells`.
pub open spec fn studies(files: Seq<file::ModelView>, cells: Seq<cell::ModelView>) -> spec_fn(
    repetition::ModelView,
) -> bool {
    |row: repetition::ModelView| holds_node(files, row.file_id) && holds_cell(cells, row.cell_id)
}

/// Whether a node of the given kind stands at `path` among `files`.
pub open spec fn path_taken(files: Seq<file::ModelView>, path: Seq<char>, is_folder: bool) -> bool {
    exists|i: int|
        0 <= i < files.len() && (#[trigger] files[i]).path == path && files[i].is_folder
            == is_folder
}

/// Whether no two nodes of one kind among `files` share a path.
pub open spec fn paths_unique(files: Seq<file::ModelView>) -> bool {
    forall|i: int, j: int|
        0 <= i < j < files.len() ==> !((#[trigger] files[i]).path == (#[trigger] files[j]).path
            && files[i].is_folder == files[j].is_folder)
}

/// Whether `id` fits the 32 bits that a stored id or position has.
pub open spec fn fits_i32(value: int) -> bool {
    i32::MIN <= value <= i32::MAX
}

impl TablesView {
    /// The tables of a store that nothing was written to.
    pub open spec fn empty() -> TablesView {
        TablesView {
            files: Seq::empty(),
            cells: Seq::empty(),
            repetitions: Seq::empty(),
            reviews: Seq::empty(),
            last_file_id: 0,
            last_cell_id: 0,
            last_repetition_id: 0,
            last_review_id: 0,
        }
    }

    /// Whether a node has the id `id`.
    pub open spec fn has_node(self, id: int) -> bool {
        holds_node(self.files, id)
    }

    /// The node with the id `id`.
    pub open spec fn node(self, id: int) -> file::ModelView {
        self.files[choose|i: int| 0 <= i < self.files.len() && (#[trigger] self.files[i]).id == id]
    }

    /// Whether a node of the given kind stands at `path`.
    pub open spec fn has_path(self, path: Seq<char>, is_folder: bool) -> bool {
        path_taken(self.files, path, is_folder)
    }

    /// Whether a file stands at `path`.
    pub open spec fn file_exists(self, path: Seq<char>) -> bool {
        self.has_path(path, false)
    }

    /// Whether a folder stands at `path`.
    pub open spec fn folder_exists(self, path: Seq<char>) -> bool {
        self.has_path(path, true)
    }

    /// Whether a cell has the id `id`.
    pub open spec fn has_cell(self, id: int) -> bool {
        holds_cell(self.cells, id)
    }

    /// Where the cell with the id `id` stands among the cells.
    pub open spec fn cell_position(self, id: int) -> int {
        choose|i: int| 0 <= i < self.cells.len() && (#[trigger] self.cells[i]).id == id
    }

    /// The cell with the id `id`.
    pub open spec fn cell(self, id: int) -> cell::ModelView {
        self.cells[self.cell_position(id)]
    }

    /// Whether a repetition has the id `id`.
    pub open spec fn has_repetition(self, id: int) -> bool {
        exists|i: int|
            0 <= i < self.repetitions.len() && (#[trigger] self.repetitions[i]).id == id
    }

    /// The tables without the cells of nodes that are gone, and without the
    /// repetitions of nodes or cells that are gone.
    pub open spec fn cascaded(self) -> TablesView {
        let cells = self.cells.filter(belongs_to(self.files));
        TablesView {
            cells,
            repetitions: self.repetitions.filter(studies(self.files, cells)),
            ..self
        }
    }

    /// The tables with the nodes that `keep` holds of, and with the cells and
    /// repetitions that belong to those.
    pub open spec fn keeping_nodes(self, keep: spec_fn(file::ModelView) -> bool) -> TablesView {
        (TablesView { files: self.files.filter(keep), ..self }).cascaded()
    }

    /// The nodes stand in the order of their ids, which are between 1 and the
    /// last id given out; each has a path that can be stored; and no two nodes
    /// of one kind share a path.
    pub open spec fn files_wf(self) -> bool {
        &&& 0 <= self.last_file_id <= i32::MAX
        &&& forall|i: int|
            0 <= i < self.files.len() ==> 1 <= (#[trigger] self.files[i]).id <= self.last_file_id
        &&& forall|i: int, j: int|
            0 <= i < j < self.files.len() ==> (#[trigger] self.files[i]).id < (
            #[trigger] self.files[j]).id
        &&& forall|i: int|
            0 <= i < self.files.len() ==> crate::path::is_stored_path(
                (#[trigger] self.files[i]).path,
            )
        &&& paths_unique(self.files)
    }

    /// The cells stand in the order of their ids, which are between 1 and the
    /// last id given out, and each belongs to a node.
    pub open spec fn cells_wf(self) -> bool {
        &&& 0 <= self.last_cell_id <= i32::MAX
        &&& forall|i: int|
            0 <= i < self.cells.len() ==> 1 <= (#[trigger] self.cells[i]).id <= self.last_cell_id
        &&& forall|i: int, j: int|
            0 <= i < j < self.cells.len() ==> (#[trigger] self.cells[i]).id < (
            #[trigger] self.cells[j]).id
        &&& forall|i: int|
            0 <= i < self.cells.len() ==> fits_i32((#[trigger] self.cells[i]).index)
        &&& forall|i: int|
            0 <= i < self.cells.len() ==> self.has_node((#[trigger] self.cells[i]).file_id)
    }

    /// The repetitions stand in the order of their ids, which are between 1
    /// and the last id given out, and each belongs to a cell and to a node.
    pub open spec fn repetitions_wf(self) -> bool {
        &&& 0 <= self.last_repetition_id <= i32::MAX
        &&& forall|i: int|
            0 <= i < self.repetitions.len() ==> 1 <= (#[trigger] self.repetitions[i]).id
                <= self.last_repetition_id
        &&& forall|i: int, j: int|
            0 <= i < j < self.repetitions.len() ==> (#[trigger] self.repetitions[i]).id < (
            #[trigger] self.repetitions[j]).id
        &&& forall|i: int|
            0 <= i < self.repetitions.len() ==> self.has_cell(
                (#[trigger] self.repetitions[i]).cell_id,
            )
        &&& forall|i: int|
            0 <= i < self.repetitions.len() ==> self.has_node(
                (#[trigger] self.repetitions[i]).file_id,
            )
    }

    /// The reviews stand in the order of their ids, which are between 1 and
    /// the last id given out.
    pub open spec fn reviews_wf(self) -> bool {
        &&& 0 <= self.last_review_id <= i32::MAX
        &&& forall|i: int|
            0 <= i < self.reviews.len() ==> 1 <= (#[trigger] self.reviews[i]).id
                <= self.last_review_id
        &&& forall|i: int, j: int|
            0 <= i < j < self.reviews.len() ==> (#[trigger] self.reviews[i]).id < (
            #[trigger] self.reviews[j]).id
    }

    /// What holds of the tables of every store.
    pub open spec fn wf(self) -> bool {
        &&& self.files_wf()
        &&& self.cells_wf()
        &&& self.repetitions_wf()
        &&& self.reviews_wf()
    }
}

/// A node is found by its id.
pub proof fn lemma_node_at(s: TablesView, i: int)
    requires
        s.files_wf(),
        0 <= i < s.files.len(),
    ensures
        s.has_node(s.files[i].id),
        s.node(s.files[i].id) == s.files[i],
{
    let id = s.files[i].id;
    let found = choose|j: int| 0 <= j < s.files.len() && (#[trigger] s.files[j]).id == id;
    assert(found == i) by {
        if found < i {
            assert(s.files[found].id < s.files[i].id);
        }
        if i < found {
            assert(s.files[i].id < s.files[found].id);
        }
    }
}

/// A cell is found by its id.
pub proof fn lemma_cell_at(s: TablesView, i: int)
    requires
        s.cells_wf(),
        0 <= i < s.cells.len(),
    ensures
        s.has_cell(s.cells[i].id),
        s.cell_position(s.cells[i].id) == i,
        s.cell(s.cells[i].id) == s.cells[i],
{
    let id = s.cells[i].id;
    let found = s.cell_position(id);
    assert(found == i) by {
        if found < i {
            assert(s.cells[found].id < s.cells[i].id);
        }
        if i < found {
            assert(s.cells[i].id < s.cells[found].id);
        }
    }
}

/// Removing nodes, with the cells and repetitions that belong to them, keeps
/// the tables well formed.
pub proof fn lemma_keeping_nodes_wf(s: TablesView, keep: spec_fn(file::ModelView) -> bool)
    requires
        s.wf(),
    ensures
        s.keeping_nodes(keep).wf(),
{
    let next = s.keeping_nodes(keep);
    let by_cell = belongs_to(next.files);
    let by_both = studies(next.files, next.cells);
    lemma_filter_keeps_order(s.files, keep);
    lemma_filter_keeps_order(s.cells, by_cell);
    lemma_filter_keeps_order(s.repetitions, by_both);
    assert forall|i: int| 0 <= i < next.files.len() implies 1 <= (#[trigger] next.files[i]).id
        <= next.last_file_id && crate::path::is_stored_path(next.files[i].path) by {
        let from = kept_from(s.files, keep, i);
    }
    assert forall|i: int, j: int| 0 <= i < j < next.files.len() implies (
    #[trigger] next.files[i]).id < (#[trigger] next.files[j]).id && !(next.files[i].path
        == next.files[j].path && next.files[i].is_folder == next.files[j].is_folder) by {
        let a = kept_from(s.files, keep, i);
        let b = kept_from(s.files, keep, j);
        assert(s.files[a].id < s.files[b].id);
    }
    assert forall|i: int| 0 <= i < next.cells.len() implies 1 <= (#[trigger] next.cells[i]).id
        <= next.last_cell_id && fits_i32(next.cells[i].index) && next.has_node(
        next.cells[i].file_id,
    ) by {
        let from = kept_from(s.cells, by_cell, i);
    }
    assert forall|i: int, j: int| 0 <= i < j < next.cells.len() implies (
    #[trigger] next.cells[i]).id < (#[trigger] next.cells[j]).id by {
        let a = kept_from(s.cells, by_cell, i);
        let b = kept_from(s.cells, by_cell, j);
        assert(s.cells[a].id < s.cells[b].id);
    }
    assert forall|i: int| 0 <= i < next.repetitions.len() implies 1 <= (
    #[trigger] next.repetitions[i]).id <= next.last_repetition_id && next.has_node(
        next.repetitions[i].file_id,
    ) && next.has_cell(next.repetitions[i].cell_id) by {
        let from = kept_from(s.repetitions, by_both, i);
    }
    assert forall|i: int, j: int| 0 <= i < j < next.repetitions.len() implies (
    #[trigger] next.repetitions[i]).id < (#[trigger] next.repetitions[j]).id by {
        let a = kept_from(s.repetitions, by_both, i);
        let b = kept_from(s.repetitions, by_both, j);
        assert(s.repetitions[a].id < s.repetitions[b].id);
    }
}

impl Tables {
    /// Tables without rows, which have given out no id.
    pub fn new() -> (tables: Tables)
        ensures
            tables@ == TablesView::empty(),
    {
        Tables {
            files: Vec::new(),
            cells: Vec::new(),
            repetitions: Vec::new(),
            reviews: Vec::new(),
            last_file_id: 0,
            last_cell_id: 0,
            last_repetition_id: 0,
            last_review_id: 0,
        }
    }

    /// Where the node with the id `id` stands among the files.
    pub fn find_node(&self, id: i32) -> (found: Option<usize>)
        ensures
            match found {
                Some(i) => i < self.files@.len() && self@.files[i as int].id == id,
                None => !self@.has_node(id as int),
            },
    {
        let mut i: usize = 0;
        while i < self.files.len()
            invariant
                i <= self.files@.len(),
                forall|j: int| 0 <= j < i ==> (#[trigger] self@.files[j]).id != id,
            decreases self.files@.len() - i,
        {
            if self.files[i].id == id {
                return Some(i);
            }
            i = i + 1;
        }
        None
    }

    /// Where the cell with the id `id` stands among the cells.
    pub fn find_cell(&self, id: i32) -> (found: Option<usize>)
        ensures
            match found {
                Some(i) => i < self.cells@.len() && self@.cells[i as int].id == id,
                None => !self@.has_cell(id as int),
            },
    {
        let mut i: usize = 0;
        while i < self.cells.len()
            invariant
                i <= self.cells@.len(),
                forall|j: int| 0 <= j < i ==> (#[trigger] self@.cells[j]).id != id,
            decreases self.cells@.len() - i,
        {
            if self.cells[i].id == id {
                return Some(i);
            }
            i = i + 1;
        }
        None
    }

    /// Where the repetition with the id `id` stands among the repetitions.
    pub fn find_repetition(&self, id: i32) -> (found: Option<usize>)
        ensures
            match found {
                Some(i) => i < self.repetitions@.len() && self@.repetitions[i as int].id == id,
                None => !self@.has_repetition(id as int),
            },
    {
        let mut i: usize = 0;
        while i < self.repetitions.len()
            invariant
                i <= self.repetitions@.len(),
                forall|j: int| 0 <= j < i ==> (#[trigger] self@.repetitions[j]).id != id,
            decreases self.repetitions@.len() - i,
        {
            if self.repetitions[i].id == id {
                return Some(i);
            }
            i = i + 1;
        }
        None
    }

    /// Tables with the same rows.
    pub fn duplicate(&self) -> (copy: Tables)
        ensures
            copy@ == self@,
    {
        let mut files: Vec<file::Model> = Vec::new();
        let mut i: usize = 0;
        while i < self.files.len()
            invariant
                i <= self.files@.len(),
                files@ == self.files@.take(i as int),
            decreases self.files@.len() - i,
        {
            files.push(self.files[i].clone());
            assert(files@ =~= self.files@.take(i as int + 1));
            i = i + 1;
        }
        assert(files@ =~= self.files@);
        let mut cells: Vec<cell::Model> = Vec::new();
        i = 0;
        while i < self.cells.len()
            invariant
                i <= self.cells@.len(),
                cells@ == self.cells@.take(i as int),
            decreases self.cells@.len() - i,
        {
            cells.push(self.cells[i].clone());
            assert(cells@ =~= self.cells@.take(i as int + 1));
            i = i + 1;
        }
        assert(cells@ =~= self.cells@);
        let mut repetitions: Vec<repetition::Model> = Vec::new();
        i = 0;
        while i < self.repetitions.len()
            invariant
                i <= self.repetitions@.len(),
                repetitions@ == self.repetitions@.take(i as int),
            decreases self.repetitions@.len() - i,
        {
            repetitions.push(self.repetitions[i].clone());
            assert(repetitions@ =~= self.repetitions@.take(i as int + 1));
            i = i + 1;
        }
        assert(repetitions@ =~= self.repetitions@);
        let mut reviews: Vec<review::Model> = Vec::new();
        i = 0;
        while i < self.reviews.len()
            invariant
                i <= self.reviews@.len(),
                reviews@ == self.reviews@.take(i as int),
            decreases self.reviews@.len() - i,
        {
            reviews.push(self.reviews[i]);
            assert(reviews@ =~= self.reviews@.take(i as int + 1));
            i = i + 1;
        }
        assert(reviews@ =~= self.reviews@);
        Tables {
            files,
            cells,
            repetitions,
            reviews,
            last_file_id: self.last_file_id,
            last_cell_id: self.last_cell_id,
            last_repetition_id: self.last_repetition_id,
            last_review_id: self.last_review_id,
        }
    }

    /// Drops the cells of nodes that are gone, then the repetitions of nodes
    /// or cells that are gone.
    pub(crate) fn cascade(&mut self)
        ensures
            final(self)@ == old(self)@.cascaded(),
    {
        let ghost before = self@;
        let ghost by_cell = belongs_to(before.files);
        let mut cells: Vec<cell::Model> = Vec::new();
        core::mem::swap(&mut self.cells, &mut cells);
        let ghost all_cells = cell_views(cells@);
        proof {
            lemma_filter_empty(by_cell);
            assert(all_cells.take(0) =~= Seq::<cell::ModelView>::empty());
        }
        for row in it: cells
            invariant
                all_cells == cell_views(it.seq()),
                all_cells == before.cells,
                by_cell == belongs_to(before.files),
                self@.files == before.files,
                self.repetitions == old(self).repetitions,
                self.reviews == old(self).reviews,
                self.last_file_id == old(self).last_file_id,
                self.last_cell_id == old(self).last_cell_id,
                self.last_repetition_id == old(self).last_repetition_id,
                self.last_review_id == old(self).last_review_id,
                self@.cells == all_cells.take(it.index() as int).filter(by_cell),
        {
            proof {
                lemma_filter_take_next(all_cells, it.index() as int, by_cell);
            }
            let ghost kept = self@.cells;
            if self.find_node(row.file_id).is_some() {
                self.cells.push(row);
                assert(self@.cells =~= kept.push(row@));
            }
        }
        assert(all_cells.take(all_cells.len() as int) =~= all_cells);
        let ghost by_both = studies(before.files, self@.cells);
        let mut repetitions: Vec<repetition::Model> = Vec::new();
        core::mem::swap(&mut self.repetitions, &mut repetitions);
        let ghost all_repetitions = repetition_views(repetitions@);
        let ghost cells_left = self@.cells;
        proof {
            lemma_filter_empty(by_both);
            assert(all_repetitions.take(0) =~= Seq::<repetition::ModelView>::empty());
        }
        for row in it: repetitions
            invariant
                all_repetitions == repetition_views(it.seq()),
                all_repetitions == before.repetitions,
                by_both == studies(before.files, cells_left),
                cells_left == before.cells.filter(belongs_to(before.files)),
                self@.files == before.files,
                self@.cells == cells_left,
                self.reviews == old(self).reviews,
                self.last_file_id == old(self).last_file_id,
                self.last_cell_id == old(self).last_cell_id,
                self.last_repetition_id == old(self).last_repetition_id,
                self.last_review_id == old(self).last_review_id,
                self@.repetitions == all_repetitions.take(it.index() as int).filter(by_both),
        {
            proof {
                lemma_filter_take_next(all_repetitions, it.index() as int, by_both);
            }
            let ghost kept = self@.repetitions;
            if self.find_node(row.file_id).is_some() && self.find_cell(row.cell_id).is_some() {
                self.repetitions.push(row);
                assert(self@.repetitions =~= kept.push(row@));
            }
        }
        assert(all_repetitions.take(all_repetitions.len() as int) =~= all_repetitions);
    }
}

/// Whether no two nodes of one kind among `files` share a path.
pub(crate) fn all_paths_unique(files: &Vec<file::Model>) -> (unique: bool)
    ensures
        unique == paths_unique(file_views(files@)),
{
    let mut j: usize = 0;
    while j < files.len()
        invariant
            j <= files@.len(),
            forall|a: int, b: int|
                0 <= a < b < j ==> !((#[trigger] file_views(files@)[a]).path == (
                #[trigger] file_views(files@)[b]).path && file_views(files@)[a].is_folder
                    == file_views(files@)[b].is_folder),
        decreases files@.len() - j,
    {
        let mut i: usize = 0;
        while i < j
            invariant
                i <= j < files@.len(),
                forall|a: int|
                    0 <= a < i ==> !((#[trigger] file_views(files@)[a]).path == file_views(
                        files@,
                    )[j as int].path && file_views(files@)[a].is_folder == file_views(
                        files@,
                    )[j as int].is_folder),
            decreases j - i,
        {
            if files[i].is_folder == files[j].is_folder && files[i].path == files[j].path {
                assert(file_views(files@)[i as int].path == file_views(files@)[j as int].path);
                return false;
            }
            i = i + 1;
        }
        j = j + 1;
    }
    true
}

impl Tables {
    /// Whether the nodes are well formed.
    fn files_are_well_formed(&self) -> (ok: bool)
        ensures
            ok == self@.files_wf(),
    {
        if self.last_file_id < 0 {
            return false;
        }
        let mut i: usize = 0;
        while i < self.files.len()
            invariant
                i <= self.files@.len(),
                0 <= self.last_file_id,
                forall|j: int| 0 <= j < i ==> 1 <= (#[trigger] self@.files[j]).id <= self.last_file_id,
                forall|j: int|
                    0 <= j < i ==> crate::path::is_stored_path((#[trigger] self@.files[j]).path),
                forall|a: int, b: int|
                    0 <= a < b < i ==> (#[trigger] self@.files[a]).id < (#[trigger] self@.files[b]).id,
            decreases self.files@.len() - i,
        {
            let row = &self.files[i];
            assert(row@ == self@.files[i as int]);
            if row.id < 1 || row.id > self.last_file_id {
                return false;
            }
            if !crate::path::is_stored_text(row.path.as_str()) {
                return false;
            }
            if i > 0 {
                assert(self.files@[i - 1]@ == self@.files[i - 1]);
                if self.files[i - 1].id >= row.id {
                    return false;
                }
                assert forall|a: int| 0 <= a < i implies (#[trigger] self@.files[a]).id
                    < self@.files[i as int].id by {
                    if a < i - 1 {
                        assert(self@.files[a].id < self@.files[i - 1].id);
                    }
                }
            }
            i = i + 1;
        }
        all_paths_unique(&self.files)
    }

    /// Whether the cells are well formed.
    fn cells_are_well_formed(&self) -> (ok: bool)
        ensures
            ok == self@.cells_wf(),
    {
        if self.last_cell_id < 0 {
            return false;
        }
        let mut i: usize = 0;
        while i < self.cells.len()
            invariant
                i <= self.cells@.len(),
                0 <= self.last_cell_id,
                forall|j: int| 0 <= j < i ==> 1 <= (#[trigger] self@.cells[j]).id <= self.last_cell_id,
                forall|j: int| 0 <= j < i ==> self@.has_node((#[trigger] self@.cells[j]).file_id),
                forall|a: int, b: int|
                    0 <= a < b < i ==> (#[trigger] self@.cells[a]).id < (#[trigger] self@.cells[b]).id,
            decreases self.cells@.len() - i,
        {
            let row = &self.cells[i];
            assert(row@ == self@.cells[i as int]);
            if row.id < 1 || row.id > self.last_cell_id {
                return false;
            }
            if self.find_node(row.file_id).is_none() {
                return false;
            }
            if i > 0 {
                assert(self.cells@[i - 1]@ == self@.cells[i - 1]);
                if self.cells[i - 1].id >= row.id {
                    return false;
                }
                assert forall|a: int| 0 <= a < i implies (#[trigger] self@.cells[a]).id
                    < self@.cells[i as int].id by {
                    if a < i - 1 {
                        assert(self@.cells[a].id < self@.cells[i - 1].id);
                    }
                }
            }
            i = i + 1;
        }
        assert forall|j: int| 0 <= j < self@.cells.len() implies fits_i32(
            (#[trigger] self@.cells[j]).index,
        ) by {
            assert(self@.cells[j] == self.cells@[j]@);
        }
        true
    }

    /// Whether the repetitions are well formed.
    fn repetitions_are_well_formed(&self) -> (ok: bool)
        ensures
            ok == self@.repetitions_wf(),
    {
        if self.last_repetition_id < 0 {
            return false;
        }
        let mut i: usize = 0;
        while i < self.repetitions.len()
            invariant
                i <= self.repetitions@.len(),
                0 <= self.last_repetition_id,
                forall|j: int|
                    0 <= j < i ==> 1 <= (#[trigger] self@.repetitions[j]).id
                        <= self.last_repetition_id,
                forall|j: int|
                    0 <= j < i ==> self@.has_node((#[trigger] self@.repetitions[j]).file_id)
                        && self@.has_cell(self@.repetitions[j].cell_id),
                forall|a: int, b: int|
                    0 <= a < b < i ==> (#[trigger] self@.repetitions[a]).id < (
                    #[trigger] self@.repetitions[b]).id,
            decreases self.repetitions@.len() - i,
        {
            let row = &self.repetitions[i];
            assert(row@ == self@.repetitions[i as int]);
            if row.id < 1 || row.id > self.last_repetition_id {
                return false;
            }
            if self.find_node(row.file_id).is_none() || self.find_cell(row.cell_id).is_none() {
                return false;
            }
            if i > 0 {
                assert(self.repetitions@[i - 1]@ == self@.repetitions[i - 1]);
                if self.repetitions[i - 1].id >= row.id {
                    return false;
                }
                assert forall|a: int| 0 <= a < i implies (#[trigger] self@.repetitions[a]).id
                    < self@.repetitions[i as int].id by {
                    if a < i - 1 {
                        assert(self@.repetitions[a].id < self@.repetitions[i - 1].id);
                    }
                }
            }
            i = i + 1;
        }
        true
    }

    /// Whether the reviews are well formed.
    fn reviews_are_well_formed(&self) -> (ok: bool)
        ensures
            ok == self@.reviews_wf(),
    {
        if self.last_review_id < 0 {
            return false;
        }
        let mut i: usize = 0;
        while i < self.reviews.len()
            invariant
                i <= self.reviews@.len(),
                0 <= self.last_review_id,
                forall|j: int|
                    0 <= j < i ==> 1 <= (#[trigger] self@.reviews[j]).id <= self.last_review_id,
                forall|a: int, b: int|
                    0 <= a < b < i ==> (#[trigger] self@.reviews[a]).id < (
                    #[trigger] self@.reviews[b]).id,
            decreases self.reviews@.len() - i,
        {
            let row = &self.reviews[i];
            if row.id < 1 || row.id > self.last_review_id {
                return false;
            }
            if i > 0 {
                if self.reviews[i - 1].id >= row.id {
                    return false;
                }
                assert forall|a: int| 0 <= a < i implies (#[trigger] self@.reviews[a]).id
                    < self@.reviews[i as int].id by {
                    if a < i - 1 {
                        assert(self@.reviews[a].id < self@.reviews[i - 1].id);
                    }
                }
            }
            i = i + 1;
        }
        true
    }

    /// Whether the tables can be those of a store.
    pub fn is_well_formed(&self) -> (ok: bool)
        ensures
            ok == self@.wf(),
    {
        self.files_are_well_formed() && self.cells_are_well_formed()
            && self.repetitions_are_well_formed() && self.reviews_are_well_formed()
    }
}

/// The tables behind every operation of the library.
pub struct Store {
    tables: Tables,
}

impl View for Store {
    type V = TablesView;

    closed spec fn view(&self) -> TablesView {
        self.tables@
    }
}

impl Store {
    #[verifier::type_invariant]
    spec fn well_formed(self) -> bool {
        self.tables@.wf()
    }

    /// A store that nothing was written to.
    pub fn new() -> (store: Store)
        ensures
            store@ == TablesView::empty(),
            store@.wf(),
    {
        Store { tables: Tables::new() }
    }

    /// A store with the tables `tables`, where they are well formed.
    pub fn from_tables(tables: Tables) -> (store: Option<Store>)
        ensures
            match store {
                Some(made) => tables@.wf() && made@ == tables@,
                None => !tables@.wf(),
            },
    {
        if tables.is_well_formed() {
            Some(Store { tables })
        } else {
            None
        }
    }

    /// The tables, to read.
    pub fn tables(&self) -> (tables: &Tables)
        ensures
            tables@ == self@,
            self@.wf(),
    {
        proof {
            use_type_invariant(self);
        }
        &self.tables
    }

    /// Takes the tables out, and leaves the store empty until `replace` puts
    /// tables back.
    pub(crate) fn take(&mut self) -> (tables: Tables)
        ensures
            tables@ == old(self)@,
            tables@.wf(),
            final(self)@ == TablesView::empty(),
    {
        proof {
            use_type_invariant(&*self);
        }
        let mut taken = Tables::new();
        core::mem::swap(&mut self.tables, &mut taken);
        taken
    }

    /// Puts `tables` in the place of the store's own.
    pub(crate) fn replace(&mut self, tables: Tables)
        requires
            tables@.wf(),
        ensures
            final(self)@ == tables@,
    {
        self.tables = tables;
    }
}

} // verus!
