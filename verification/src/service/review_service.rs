//! The log of reviews: each review rewrites the repetition that was studied
//! and adds one entry to the log.

use vstd::prelude::*;
use crate::clock::current_time;
use crate::clock::Timestamp;
use crate::entity::repetition;
use crate::entity::review;
use crate::entity::review::Rating;
use crate::error::delivers;
use crate::error::ServiceError;
use crate::error::StoreFault;
use crate::store::Store;
use crate::store::TablesView;

verus! {

/// The change that puts `unit` in the place of the repetition with its id.
pub open spec fn rewritten(unit: repetition::ModelView) -> spec_fn(
    repetition::ModelView,
) -> repetition::ModelView {
    |row: repetition::ModelView|
        if row.id == unit.id {
            unit
        } else {
            row
        }
}

/// What `register_review` leads to: the repetition with the id of `unit` is
/// `unit`, and the log has one more entry, for the cell of `unit` and dated
/// `now`.
pub open spec fn registered_review(
    s: TablesView,
    unit: repetition::ModelView,
    rating: Rating,
    study_time: i32,
    now: Timestamp,
) -> Result<TablesView, ServiceError> {
    if !s.has_repetition(unit.id) {
        Err(ServiceError::NotFound)
    } else if !s.has_node(unit.file_id) || !s.has_cell(unit.cell_id) {
        Err(ServiceError::Persistence(StoreFault::BrokenReference))
    } else if s.last_review_id >= i32::MAX {
        Err(ServiceError::Persistence(StoreFault::IdsExhausted))
    } else {
        Ok(
            TablesView {
                repetitions: s.repetitions.map_values(rewritten(unit)),
                reviews: s.reviews.push(
                    review::Model {
                        id: (s.last_review_id + 1) as i32,
                        cell_id: unit.cell_id as i32,
                        study_time,
                        date: now,
                        rating,
                    },
                ),
                last_review_id: s.last_review_id + 1,
                ..s
            },
        )
    }
}

/// Puts `new_repetition` in the place of the repetition with its id, and
/// logs a review of its cell with the date `now`.
pub fn register_review_at(
    store: &mut Store,
    new_repetition: repetition::Model,
    rating: Rating,
    study_time: i32,
    now: Timestamp,
) -> (result: Result<(), ServiceError>)
    ensures
        delivers(
            old(store)@,
            final(store)@,
            result,
            registered_review(old(store)@, new_repetition@, rating, study_time, now),
        ),
        final(store)@.wf(),
{
    let tables = store.tables();
    let ghost before = tables@;
    let ghost unit = new_repetition@;
    let at = match tables.find_repetition(new_repetition.id) {
        Some(at) => at,
        None => {
            return Err(ServiceError::NotFound);
        },
    };
    if tables.find_node(new_repetition.file_id).is_none() || tables.find_cell(
        new_repetition.cell_id,
    ).is_none() {
        return Err(ServiceError::Persistence(StoreFault::BrokenReference));
    }
    if tables.last_review_id == i32::MAX {
        return Err(ServiceError::Persistence(StoreFault::IdsExhausted));
    }
    let cell_id = new_repetition.cell_id;
    let mut owned = store.take();
    owned.repetitions[at] = new_repetition;
    let id = owned.last_review_id + 1;
    owned.reviews.push(review::Model { id, cell_id, study_time, date: now, rating });
    owned.last_review_id = id;
    proof {
        let rows = before.repetitions.map_values(rewritten(unit));
        assert(owned@.repetitions =~= rows) by {
            assert forall|i: int| 0 <= i < rows.len() implies (#[trigger] owned@.repetitions[i])
                == rows[i] by {
                if i < at {
                    assert(before.repetitions[i].id < before.repetitions[at as int].id);
                }
                if at < i {
                    assert(before.repetitions[at as int].id < before.repetitions[i].id);
                }
            }
        }
        assert forall|i: int| 0 <= i < rows.len() implies (#[trigger] rows[i]).id
            == before.repetitions[i].id && owned@.has_node(rows[i].file_id) && owned@.has_cell(
            rows[i].cell_id,
        ) by {
            assert(before.has_node(before.repetitions[i].file_id));
            assert(before.has_cell(before.repetitions[i].cell_id));
        }
        assert forall|i: int, j: int| 0 <= i < j < rows.len() implies (#[trigger] rows[i]).id < (
        #[trigger] rows[j]).id by {
            assert(before.repetitions[i].id < before.repetitions[j].id);
        }
        assert forall|i: int| 0 <= i < rows.len() implies 1 <= (#[trigger] rows[i]).id
            <= owned@.last_repetition_id by {
            assert(1 <= before.repetitions[i].id);
        }
    }
    store.replace(owned);
    Ok(())
}

/// Puts `new_repetition` in the place of the repetition with its id, and
/// logs a review of its cell with the date of the call.
pub fn register_review(
    store: &mut Store,
    new_repetition: repetition::Model,
    rating: Rating,
    study_time: i32,
) -> (result: Result<(), ServiceError>)
    ensures
        exists|now: Timestamp|
            delivers(
                old(store)@,
                final(store)@,
                result,
                #[trigger] registered_review(
                    old(store)@,
                    new_repetition@,
                    rating,
                    study_time,
                    now,
                ),
            ),
        final(store)@.wf(),
{
    let now = current_time();
    register_review_at(store, new_repetition, rating, study_time, now)
}

} // verus!
