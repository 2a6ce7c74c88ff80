//! What reconciling does to the repetitions of a cloze cell, marker by
//! marker.

use vstd::prelude::*;
use crate::clock::Timestamp;
use crate::entity::cell::CellType;
use crate::entity::repetition;
use crate::seqs::kept_from;
use crate::seqs::lemma_filter_keeps_order;
use crate::service::repetition_service::first_occurrences;
use crate::service::repetition_service::is_unstored;
use crate::service::repetition_service::marker_stored;
use crate::service::repetition_service::reconciled;
use crate::service::repetition_service::stays;
use crate::store::TablesView;

verus! {

/// The first occurrences of the markers hold each marker that was found,
/// once.
pub proof fn lemma_first_occurrences(found: Seq<Seq<char>>)
    ensures
        forall|marker: Seq<char>|
            found.contains(marker) <==> #[trigger] first_occurrences(found).contains(marker),
        forall|i: int, j: int|
            0 <= i < j < first_occurrences(found).len() ==> first_occurrences(found)[i]
                != first_occurrences(found)[j],
    decreases found.len(),
{
    let firsts = first_occurrences(found);
    if found.len() > 0 {
        let front = found.drop_last();
        let last = found.last();
        let before = first_occurrences(front);
        lemma_first_occurrences(front);
        assert(front.push(last) =~= found);
        assert forall|marker: Seq<char>| found.contains(marker) <==> #[trigger] firsts.contains(
            marker,
        ) by {
            if found.contains(marker) {
                let w = choose|w: int| 0 <= w < found.len() && found[w] == marker;
                if w < front.len() {
                    assert(front[w] == marker);
                    assert(before.contains(marker));
                    let v = choose|v: int| 0 <= v < before.len() && before[v] == marker;
                    assert(firsts[v] == marker);
                } else {
                    if front.contains(last) {
                        assert(before.contains(last));
                    } else {
                        assert(firsts[before.len() as int] == marker);
                    }
                }
            }
            if firsts.contains(marker) {
                let v = choose|v: int| 0 <= v < firsts.len() && firsts[v] == marker;
                if v < before.len() {
                    assert(before[v] == marker);
                    assert(before.contains(marker));
                    let w = choose|w: int| 0 <= w < front.len() && front[w] == marker;
                    assert(found[w] == marker);
                } else {
                    assert(found[found.len() - 1] == marker);
                }
            }
        }
        assert forall|i: int, j: int| 0 <= i < j < firsts.len() implies firsts[i]
            != firsts[j] by {
            if j >= before.len() {
                assert(before[i] == firsts[i]);
                assert(before.contains(firsts[i]));
            }
        }
    }
}

/// Reconciling a cloze cell follows its markers. Every repetition of
/// another cell, and every repetition of the cell that stands for a marker
/// that was found, stays as it was. Whatever else the cell had is gone. Each
/// marker that was found and that no repetition stood for gets one fresh
/// repetition, with a new id. So after it each marker that was found has a
/// repetition.
pub proof fn law_reconciling_follows_markers(
    s: TablesView,
    file_id: int,
    cell_id: int,
    found: Seq<Seq<char>>,
    now: Timestamp,
)
    requires
        s.wf(),
        reconciled(s, file_id, cell_id, CellType::Cloze, found, now) is Ok,
    ensures
        ({
            let after = reconciled(s, file_id, cell_id, CellType::Cloze, found, now)->Ok_0;
            let keep = stays(cell_id, CellType::Cloze, found);
            let kept = s.repetitions.filter(keep).len() as int;
            &&& forall|i: int|
                0 <= i < s.repetitions.len() && keep(#[trigger] s.repetitions[i])
                    ==> after.repetitions.contains(s.repetitions[i])
            &&& kept <= after.repetitions.len()
            &&& forall|j: int|
                0 <= j < kept ==> s.repetitions.contains(#[trigger] after.repetitions[j]) && keep(
                    after.repetitions[j],
                )
            &&& forall|j: int|
                kept <= j < after.repetitions.len() ==> {
                    let row = #[trigger] after.repetitions[j];
                    &&& row.id > s.last_repetition_id
                    &&& row.additional_content is Some
                    &&& found.contains(row.additional_content->0)
                    &&& !marker_stored(s.repetitions, cell_id, row.additional_content->0)
                    &&& row == repetition::ModelView::fresh(
                        row.id,
                        file_id,
                        cell_id,
                        row.additional_content,
                        now,
                    )
                }
            &&& forall|j: int, l: int|
                kept <= j < l < after.repetitions.len() ==> (
                #[trigger] after.repetitions[j]).additional_content != (
                #[trigger] after.repetitions[l]).additional_content
            &&& forall|k: int|
                0 <= k < found.len() ==> marker_stored(
                    after.repetitions,
                    cell_id,
                    #[trigger] found[k],
                )
        }),
{
    let after = reconciled(s, file_id, cell_id, CellType::Cloze, found, now)->Ok_0;
    let keep = stays(cell_id, CellType::Cloze, found);
    let rows = s.repetitions.filter(keep);
    let kept = rows.len() as int;
    let firsts = first_occurrences(found);
    let unstored = is_unstored(s.repetitions, cell_id);
    let wanted = firsts.filter(unstored);
    lemma_first_occurrences(found);
    lemma_filter_keeps_order(s.repetitions, keep);
    lemma_filter_keeps_order(firsts, unstored);
    assert(after.repetitions.len() == kept + wanted.len());
    assert forall|i: int|
        0 <= i < s.repetitions.len() && keep(
            #[trigger] s.repetitions[i],
        ) implies after.repetitions.contains(s.repetitions[i]) by {
        let k = choose|k: int| 0 <= k < rows.len() && #[trigger] kept_from(s.repetitions, keep, k) == i;
        assert(after.repetitions[k] == rows[k]);
    }
    assert forall|j: int| 0 <= j < kept implies s.repetitions.contains(
        #[trigger] after.repetitions[j],
    ) && keep(after.repetitions[j]) by {
        let i = kept_from(s.repetitions, keep, j);
        assert(after.repetitions[j] == rows[j]);
        assert(s.repetitions[i] == rows[j]);
    }
    assert forall|j: int| kept <= j < after.repetitions.len() implies {
        let row = #[trigger] after.repetitions[j];
        &&& row.id > s.last_repetition_id
        &&& row.additional_content is Some
        &&& found.contains(row.additional_content->0)
        &&& !marker_stored(s.repetitions, cell_id, row.additional_content->0)
        &&& row == repetition::ModelView::fresh(row.id, file_id, cell_id, row.additional_content, now)
    } by {
        let k = j - kept;
        let i = kept_from(firsts, unstored, k);
        assert(firsts[i] == wanted[k]);
        assert(firsts.contains(wanted[k]));
        assert(after.repetitions[j].additional_content == Some(wanted[k]));
    }
    assert forall|j: int, l: int| kept <= j < l < after.repetitions.len() implies (
    #[trigger] after.repetitions[j]).additional_content != (
    #[trigger] after.repetitions[l]).additional_content by {
        let a = kept_from(firsts, unstored, j - kept);
        let b = kept_from(firsts, unstored, l - kept);
        assert(a < b);
        assert(firsts[a] == wanted[j - kept]);
        assert(firsts[b] == wanted[l - kept]);
        assert(after.repetitions[j].additional_content == Some(wanted[j - kept]));
        assert(after.repetitions[l].additional_content == Some(wanted[l - kept]));
    }
    assert forall|k: int| 0 <= k < found.len() implies marker_stored(
        after.repetitions,
        cell_id,
        #[trigger] found[k],
    ) by {
        let marker = found[k];
        assert(found.contains(marker));
        if marker_stored(s.repetitions, cell_id, marker) {
            let i = choose|i: int|
                0 <= i < s.repetitions.len() && (#[trigger] s.repetitions[i]).cell_id == cell_id
                    && s.repetitions[i].additional_content == Some(marker);
            assert(keep(s.repetitions[i]));
            let w = choose|w: int|
                0 <= w < rows.len() && #[trigger] kept_from(s.repetitions, keep, w) == i;
            assert(after.repetitions[w] == s.repetitions[i]);
        } else {
            assert(firsts.contains(marker));
            let v = choose|v: int| 0 <= v < firsts.len() && firsts[v] == marker;
            assert(unstored(firsts[v]));
            let w = choose|w: int|
                0 <= w < wanted.len() && #[trigger] kept_from(firsts, unstored, w) == v;
            assert(wanted[w] == marker);
            assert(after.repetitions[kept + w].additional_content == Some(marker));
            assert(after.repetitions[kept + w].cell_id == cell_id);
        }
    }
}

} // verus!
