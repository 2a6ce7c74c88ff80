use brainy_core::clock::Timestamp;
use brainy_core::entity::cell::CellType;
use brainy_core::entity::repetition;
use brainy_core::entity::repetition::State;
use brainy_core::entity::review::Rating;
use brainy_core::error::ServiceError;
use brainy_core::error::StoreFault;
use brainy_core::service::cell_service::create_cell;
use brainy_core::service::file_service::create_file;
use brainy_core::service::review_service::register_review;
use brainy_core::service::review_service::register_review_at;
use brainy_core::store::Store;

#[test]
fn register_review_valid_input_registered_review_and_update_repetition() {
    let mut store = Store::new();
    let file_id = create_file(&mut store, "file 1".into()).unwrap();
    let cell_id = create_cell(&mut store, file_id, "".into(), CellType::FlashCard, 0).unwrap();
    let repetition_id = store.tables().repetitions[0].id;
    let date = Timestamp { seconds: 1_700_000_000, nanos: 123 };
    let repetition = repetition::Model {
        id: repetition_id,
        file_id,
        cell_id,
        due: date,
        reps: 1,
        stability: 2.1f32.to_bits(),
        difficulty: 4.2f32.to_bits(),
        elapsed_days: 5,
        scheduled_days: 6,
        lapses: 7,
        state: State::New,
        last_review: date,
        additional_content: Some("".into()),
    };
    let now = Timestamp { seconds: 1_700_000_100, nanos: 0 };

    register_review_at(&mut store, repetition.clone(), Rating::Again, 10, now).unwrap();

    let actual_repetition = &store.tables().repetitions[0];
    assert_eq!(actual_repetition.id, repetition.id);
    assert_eq!(actual_repetition.file_id, repetition.file_id);
    assert_eq!(actual_repetition.cell_id, repetition.cell_id);
    assert_eq!(actual_repetition.due, repetition.due);
    assert_eq!(actual_repetition.reps, repetition.reps);
    assert_eq!(f32::from_bits(actual_repetition.stability), 2.1f32);
    assert_eq!(f32::from_bits(actual_repetition.difficulty), 4.2f32);
    assert_eq!(actual_repetition.elapsed_days, repetition.elapsed_days);
    assert_eq!(actual_repetition.scheduled_days, repetition.scheduled_days);
    assert_eq!(actual_repetition.lapses, repetition.lapses);
    assert_eq!(actual_repetition.state, repetition.state);
    assert_eq!(actual_repetition.last_review, repetition.last_review);
    let actual_review = &store.tables().reviews[0];
    assert_eq!(actual_review.cell_id, repetition.cell_id);
    assert_eq!(actual_review.date, now);
    assert_eq!(actual_review.rating, Rating::Again);
    assert_eq!(actual_review.study_time, 10);
}

#[test]
fn register_review_unknown_repetition_returned_error() {
    let mut store = Store::new();

    let actual = register_review(
        &mut store,
        repetition::Model { id: 7, ..Default::default() },
        Rating::Good,
        1,
    );

    assert_eq!(actual, Err(ServiceError::NotFound));
    assert_eq!(store.tables().reviews.len(), 0);
}

#[test]
fn register_review_unknown_cell_returned_error() {
    let mut store = Store::new();
    let file_id = create_file(&mut store, "file 1".into()).unwrap();
    create_cell(&mut store, file_id, "".into(), CellType::FlashCard, 0).unwrap();
    let repetition_id = store.tables().repetitions[0].id;

    let actual = register_review(
        &mut store,
        repetition::Model { id: repetition_id, file_id, cell_id: 99, ..Default::default() },
        Rating::Good,
        1,
    );

    assert_eq!(actual, Err(ServiceError::Persistence(StoreFault::BrokenReference)));
    assert_eq!(store.tables().reviews.len(), 0);
}
