//! The markers of a cloze cell: tags of the form `<cloze index="3">` in its
//! content, each of which blanks out one part of the text.

use vstd::prelude::*;
use crate::entity::cell::CellType;
use crate::seqs::text_views;

verus! {

/// The regular expression that a marker matches. Its one group holds the
/// digits of the marker's index.
pub open spec fn marker_pattern() -> Seq<char> {
    "<cloze[^>]*index=\"(\\d+)\"[^>]*>"@
}

/// What group 1 holds in each match of the regular expression `pattern` in
/// `text`, the matches taken from left to right without overlap.
pub uninterp spec fn captured_groups(pattern: Seq<char>, text: Seq<char>) -> Seq<Seq<char>>;

/// The indices of the markers of a cell, as the texts that stand in its
/// content: those that the marker pattern captures in a cloze cell, and none
/// in a cell of another type.
pub open spec fn markers_of(cell_type: CellType, content: Seq<char>) -> Seq<Seq<char>> {
    if cell_type == CellType::Cloze {
        captured_groups(marker_pattern(), content)
    } else {
        Seq::empty()
    }
}

/// `regex::Regex::new`, `Regex::captures_iter` and `Captures::extract` of
/// the crate regex: compiles `pattern` and walks over its matches in `text`.
/// The contract names what group 1 holds in each match, in order. It asks for
/// the marker pattern, which compiles and has exactly one group, as
/// `extract` demands.
#[verifier::external_body]
fn capture_groups(pattern: &str, text: &str) -> (found: Vec<String>)
    requires
        pattern@ == marker_pattern(),
    ensures
        text_views(found@) == captured_groups(pattern@, text@),
{
    let expression = regex::Regex::new(pattern).expect("Invalid regex");
    expression.captures_iter(text).map(|c| c.extract::<1>().1[0].to_string()).collect()
}

/// The indices of the markers in the content of a cell.
pub fn find_markers(cell_type: CellType, content: &str) -> (found: Vec<String>)
    ensures
        text_views(found@) == markers_of(cell_type, content@),
{
    match cell_type {
        CellType::Cloze => capture_groups("<cloze[^>]*index=\"(\\d+)\"[^>]*>", content),
        _ => {
            let none: Vec<String> = Vec::new();
            assert(text_views(none@) =~= Seq::<Seq<char>>::empty());
            none
        },
    }
}

} // verus!
