use brainy_core::clock::Timestamp;
use brainy_core::entity::cell::CellType;
use brainy_core::entity::repetition;
use brainy_core::entity::repetition::State;
use brainy_core::entity::review::Rating;
use brainy_core::service::cell_service::create_cell;
use brainy_core::service::cell_service::create_cell_with_markers;
use brainy_core::service::cell_service::update_cell_content;
use brainy_core::service::file_service::create_file;
use brainy_core::service::repetition_service::get_file_repetitions;
use brainy_core::service::repetition_service::get_repetitions_for_files;
use brainy_core::service::repetition_service::get_study_repetition_counts;
use brainy_core::service::repetition_service::get_study_repetition_counts_at;
use brainy_core::service::repetition_service::reconcile_repetitions;
use brainy_core::service::repetition_service::reset_repetitions_for_cell;
use brainy_core::service::repetition_service::update_repetitions_for_cell;
use brainy_core::service::review_service::register_review;
use brainy_core::store::Store;

fn file_with_cell(store: &mut Store, file_name: &str) -> (i32, i32) {
    file_with_cell_of(store, file_name, CellType::Note, "")
}

fn file_with_cell_of(
    store: &mut Store,
    file_name: &str,
    cell_type: CellType,
    content: &str,
) -> (i32, i32) {
    let file_id = create_file(store, file_name.into()).unwrap();
    let cell_id = create_cell(store, file_id, content.into(), cell_type, 0).unwrap();
    (file_id, cell_id)
}

fn insert_repetition(store: &mut Store, row: repetition::Model) {
    let mut tables = store.tables().duplicate();
    tables.last_repetition_id += 1;
    tables.repetitions.push(repetition::Model { id: tables.last_repetition_id, ..row });
    *store = Store::from_tables(tables).unwrap();
}

fn repetitions_of_cell(store: &Store, cell_id: i32) -> Vec<repetition::Model> {
    store.tables().repetitions.iter().filter(|r| r.cell_id == cell_id).cloned().collect()
}

#[test]
fn update_repetitions_for_cell_flash_card_with_no_repetitions_added_repetition() {
    let mut store = Store::new();
    let (file_id, cell_id) = file_with_cell(&mut store, "file 1");

    update_repetitions_for_cell(&mut store, file_id, cell_id, &CellType::FlashCard, "").unwrap();

    let actual = get_file_repetitions(&store, file_id);
    assert_eq!(actual.len(), 1);
    assert_eq!(actual[0].state, State::New);
    assert_eq!(actual[0].additional_content, None);
}

#[test]
fn update_repetitions_for_cell_flash_card_with_repetitions_no_repetition_added() {
    let mut store = Store::new();
    let (file_id, cell_id) = file_with_cell(&mut store, "file 1");
    insert_repetition(&mut store, repetition::Model { file_id, cell_id, ..Default::default() });

    update_repetitions_for_cell(&mut store, file_id, cell_id, &CellType::FlashCard, "").unwrap();

    let actual = get_file_repetitions(&store, file_id);
    assert_eq!(actual.len(), 1);
}

#[test]
fn update_repetitions_for_cloze_added_new_repetitions() {
    let mut store = Store::new();
    let (file_id, cell_id) = file_with_cell(&mut store, "file 1");
    let content = r#"
            <cloze index="0">First cloze</cloze>
            <cloze index="1">Second cloze</cloze>
        "#;
    insert_repetition(
        &mut store,
        repetition::Model {
            file_id,
            cell_id,
            additional_content: Some("0".into()),
            ..Default::default()
        },
    );

    update_repetitions_for_cell(&mut store, file_id, cell_id, &CellType::Cloze, content).unwrap();

    let actual = get_file_repetitions(&store, file_id);
    assert_eq!(actual.len(), 2);
    assert_eq!(actual[0].additional_content, Some("0".to_string()));
    assert_eq!(actual[1].additional_content, Some("1".to_string()));
}

#[test]
fn get_study_repetition_counts_valid_input_returned_count() {
    let mut store = Store::new();
    let (file_id, cell_id) = file_with_cell(&mut store, "file 1");
    let now = Timestamp { seconds: 1_700_000_000, nanos: 0 };
    let tomorrow = Timestamp { seconds: 1_700_000_000 + 86_400, nanos: 0 };
    for _ in 0..2 {
        insert_repetition(
            &mut store,
            repetition::Model { cell_id, file_id, state: State::New, ..Default::default() },
        );
    }
    insert_repetition(
        &mut store,
        repetition::Model { cell_id, file_id, state: State::Review, ..Default::default() },
    );
    insert_repetition(
        &mut store,
        repetition::Model { cell_id, file_id, state: State::Learning, ..Default::default() },
    );
    insert_repetition(
        &mut store,
        repetition::Model {
            cell_id,
            file_id,
            state: State::Learning,
            due: tomorrow,
            ..Default::default()
        },
    );

    let actual = get_study_repetition_counts_at(&store, file_id, now);

    assert_eq!(2, actual.new);
    assert_eq!(1, actual.learning);
    assert_eq!(0, actual.relearning);
    assert_eq!(1, actual.review);
}

#[test]
fn get_study_repetition_counts_counts_what_is_due_now() {
    let mut store = Store::new();
    let (file_id, _) = file_with_cell_of(&mut store, "file 1", CellType::FlashCard, "");

    let actual = get_study_repetition_counts(&store, file_id);

    assert_eq!(1, actual.new);
    assert_eq!(0, actual.learning);
}

#[test]
fn get_study_repetition_counts_due_is_compared_to_the_nanosecond() {
    let mut store = Store::new();
    let (file_id, cell_id) = file_with_cell(&mut store, "file 1");
    let due = Timestamp { seconds: 10, nanos: 5 };
    insert_repetition(
        &mut store,
        repetition::Model { cell_id, file_id, due, ..Default::default() },
    );

    let before = get_study_repetition_counts_at(&store, file_id, Timestamp { seconds: 10, nanos: 4 });
    let at = get_study_repetition_counts_at(&store, file_id, Timestamp { seconds: 10, nanos: 5 });

    assert_eq!(0, before.new);
    assert_eq!(1, at.new);
}

#[test]
fn get_file_repetitions_valid_input_returned_repetitions() {
    let mut store = Store::new();
    let (file_id, cell_id) = file_with_cell(&mut store, "file 1");
    let (file_id_2, cell_id_2) = file_with_cell(&mut store, "file 2");
    insert_repetition(&mut store, repetition::Model { file_id, cell_id, ..Default::default() });
    insert_repetition(
        &mut store,
        repetition::Model { file_id: file_id_2, cell_id: cell_id_2, ..Default::default() },
    );

    let actual = get_file_repetitions(&store, file_id);

    assert_eq!(actual.len(), 1);
}

#[test]
fn get_file_repetitions_shuffles_the_same_way_every_time() {
    let mut store = Store::new();
    let (file_id, cell_id) = file_with_cell(&mut store, "file 1");
    for _ in 0..20 {
        insert_repetition(&mut store, repetition::Model { file_id, cell_id, ..Default::default() });
    }

    let first: Vec<i32> = get_file_repetitions(&store, file_id).iter().map(|r| r.id).collect();
    let second: Vec<i32> = get_file_repetitions(&store, file_id).iter().map(|r| r.id).collect();

    assert_eq!(first, second);
    let mut sorted = first.clone();
    sorted.sort();
    assert_eq!(sorted, (1..=20).collect::<Vec<i32>>());
    assert_ne!(first, sorted);
}

#[test]
fn get_repetitions_for_files_valid_input_returned_repetitions() {
    let mut store = Store::new();
    let (file1_id, cell1_id) = file_with_cell(&mut store, "file 1");
    for _ in 0..2 {
        insert_repetition(
            &mut store,
            repetition::Model { file_id: file1_id, cell_id: cell1_id, ..Default::default() },
        );
    }
    let (file2_id, cell2_id) = file_with_cell(&mut store, "file 2");
    insert_repetition(
        &mut store,
        repetition::Model { file_id: file2_id, cell_id: cell2_id, ..Default::default() },
    );

    let actual = get_repetitions_for_files(&store, vec![file1_id, file2_id]);

    assert_eq!(3, actual.len());
}

#[test]
fn reset_repetitions_for_cell_valid_input_reseted_repetition() {
    let mut store = Store::new();
    let (file_id, cell_id) = file_with_cell_of(
        &mut store,
        "file 1",
        CellType::FlashCard,
        r#"{"question":"old content","answer":""}"#,
    );
    let repetition_id = repetitions_of_cell(&store, cell_id)[0].id;
    register_review(
        &mut store,
        repetition::Model {
            id: repetition_id,
            file_id,
            cell_id,
            state: State::Learning,
            scheduled_days: 100,
            ..Default::default()
        },
        Rating::Again,
        0,
    )
    .unwrap();

    reset_repetitions_for_cell(&mut store, cell_id).unwrap();

    let actual = repetitions_of_cell(&store, cell_id);
    assert_eq!(State::New, actual[0].state);
    assert_eq!(0, actual[0].scheduled_days);
}

#[test]
fn cloze_cell_editing_markers_keeps_the_repetitions_that_stay() {
    let mut store = Store::new();
    let file_id = create_file(&mut store, "file".into()).unwrap();
    let created = Timestamp { seconds: 100, nanos: 0 };
    let edited = Timestamp { seconds: 200, nanos: 0 };
    let cell_id = create_cell_with_markers(
        &mut store,
        file_id,
        r#"<cloze index="0">a</cloze> <cloze index="1">b</cloze>"#.into(),
        CellType::Cloze,
        0,
        &vec!["0".to_string(), "1".to_string()],
        created,
    )
    .unwrap();
    let before = repetitions_of_cell(&store, cell_id);
    assert_eq!(before.len(), 2);
    let kept_before = before.iter().find(|r| r.additional_content == Some("1".into())).unwrap();

    reconcile_repetitions(
        &mut store,
        file_id,
        cell_id,
        &CellType::Cloze,
        &vec!["1".to_string(), "2".to_string()],
        edited,
    )
    .unwrap();

    let after = repetitions_of_cell(&store, cell_id);
    assert_eq!(after.len(), 2);
    let kept_after = after.iter().find(|r| r.additional_content == Some("1".into())).unwrap();
    assert_eq!(kept_after, kept_before);
    assert_eq!(kept_after.due, created);
    assert!(!after.iter().any(|r| r.additional_content == Some("0".into())));
    let added = after.iter().find(|r| r.additional_content == Some("2".into())).unwrap();
    assert_eq!(added.state, State::New);
    assert_eq!(added.due, edited);
    assert!(added.id > kept_after.id);
}

#[test]
fn cloze_cell_markers_are_read_from_the_content() {
    let mut store = Store::new();
    let file_id = create_file(&mut store, "file".into()).unwrap();
    let cell_id = create_cell(
        &mut store,
        file_id,
        r#"<cloze index="0">a</cloze> and <cloze class="x" index="1">b</cloze> and <cloze index="0">c</cloze>"#
            .into(),
        CellType::Cloze,
        0,
    )
    .unwrap();
    let before = repetitions_of_cell(&store, cell_id);
    assert_eq!(before.len(), 2);
    let kept_id = before.iter().find(|r| r.additional_content == Some("1".into())).unwrap().id;

    update_cell_content(
        &mut store,
        cell_id,
        r#"<cloze index="1">b</cloze> <cloze index="2">d</cloze>"#.into(),
    )
    .unwrap();

    let after = repetitions_of_cell(&store, cell_id);
    let markers: Vec<Option<String>> = after.iter().map(|r| r.additional_content.clone()).collect();
    assert_eq!(markers, vec![Some("1".to_string()), Some("2".to_string())]);
    assert_eq!(after[0].id, kept_id);
}

#[test]
fn note_cell_loses_repetitions_on_reconcile() {
    let mut store = Store::new();
    let (file_id, cell_id) = file_with_cell(&mut store, "file 1");
    insert_repetition(&mut store, repetition::Model { file_id, cell_id, ..Default::default() });

    update_repetitions_for_cell(&mut store, file_id, cell_id, &CellType::Note, "").unwrap();

    assert_eq!(repetitions_of_cell(&store, cell_id).len(), 0);
}
