//! A subtree of the hierarchy, as it leaves the store and comes back.

use vstd::prelude::*;
use crate::entity::cell::CellType;

verus! {

/// Whether an exported item is a file or a folder.
#[derive(Clone, Copy, Debug, PartialEq, Eq, Structural)]
pub enum ExportedItemType {
    File,
    Folder,
}

/// A cell of an exported file: what it holds and of what type it is.
#[derive(Debug, PartialEq, Eq)]
pub struct ExportedCell {
    pub content: String,
    pub cell_type: CellType,
}

/// An exported cell as the contracts see it.
pub struct ExportedCellView {
    pub content: Seq<char>,
    pub cell_type: CellType,
}

impl View for ExportedCell {
    type V = ExportedCellView;

    open spec fn view(&self) -> ExportedCellView {
        ExportedCellView { content: self.content@, cell_type: self.cell_type }
    }
}

/// A node with all that lies below it. The path starts at the name of the
/// node that was exported. A file holds its cells in order, a folder its
/// children.
#[derive(Debug, PartialEq, Eq)]
pub struct ExportedItem {
    pub path: String,
    pub item_type: ExportedItemType,
    pub cells: Option<Vec<ExportedCell>>,
    pub children: Option<Vec<ExportedItem>>,
}

/// An exported item as the contracts see it.
pub struct ExportedItemView {
    pub path: Seq<char>,
    pub item_type: ExportedItemType,
    pub cells: Option<Seq<ExportedCellView>>,
    pub children: Option<Seq<ExportedItemView>>,
}

/// The exported cells in `rows` as the contracts see them.
pub open spec fn exported_cell_views(rows: Seq<ExportedCell>) -> Seq<ExportedCellView> {
    rows.map_values(|row: ExportedCell| row@)
}

/// An item as the contracts see it.
pub open spec fn item_view(item: ExportedItem) -> ExportedItemView
    decreases item,
{
    ExportedItemView {
        path: item.path@,
        item_type: item.item_type,
        cells: match item.cells {
            Some(rows) => Some(exported_cell_views(rows@)),
            None => None,
        },
        children: match item.children {
            Some(rows) => Some(
                Seq::new(
                    rows@.len(),
                    |i: int|
                        if 0 <= i < rows@.len() {
                            item_view(rows@[i])
                        } else {
                            arbitrary()
                        },
                ),
            ),
            None => None,
        },
    }
}

impl View for ExportedItem {
    type V = ExportedItemView;

    open spec fn view(&self) -> ExportedItemView {
        item_view(*self)
    }
}

impl ExportedItem {
    /// What the view of an item holds.
    pub proof fn lemma_view(&self)
        ensures
            self@.path == self.path@,
            self@.item_type == self.item_type,
            self.cells is Some <==> self@.cells is Some,
            self.cells is Some ==> self@.cells->0 == exported_cell_views(self.cells->0@),
            self.children is Some <==> self@.children is Some,
            self.children is Some ==> self@.children->0.len() == self.children->0@.len(),
            forall|i: int|
                self.children is Some && 0 <= i < self.children->0@.len() ==> (
                #[trigger] self@.children->0[i]) == self.children->0@[i]@,
    {
        match self.children {
            Some(rows) => {
                assert(self.view().children->0.len() == rows@.len());
            },
            None => {},
        }
    }

    /// The item with these four values.
    pub fn new(
        path: String,
        item_type: ExportedItemType,
        cells: Option<Vec<ExportedCell>>,
        children: Option<Vec<ExportedItem>>,
    ) -> (item: Self)
        ensures
            item.path == path,
            item.item_type == item_type,
            item.cells == cells,
            item.children == children,
    {
        Self { path, item_type, cells, children }
    }
}

} // verus!
