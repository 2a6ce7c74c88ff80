use brainy_core::entity::cell::CellType;
use brainy_core::entity::file::Model as FileModel;
use brainy_core::error::ErrorKind;
use brainy_core::error::ServiceError;
use brainy_core::error::StoreFault;
use brainy_core::path::apply_new_name;
use brainy_core::path::get_file_name;
use brainy_core::path::get_folder_path;
use brainy_core::path::is_blank_text;
use brainy_core::path::join_path;
use brainy_core::path::trim_matches_separator;
use brainy_core::service::cell_service::create_cell;
use brainy_core::service::cell_service::move_cell;
use brainy_core::service::file_service::create_file;
use brainy_core::service::file_service::create_folder;
use brainy_core::service::file_service::delete_file;
use brainy_core::service::file_service::delete_folder;
use brainy_core::service::file_service::move_file;
use brainy_core::service::file_service::move_folder;
use brainy_core::service::file_service::rename_file;
use brainy_core::service::file_service::rename_folder;
use brainy_core::store::Store;
use brainy_core::store::Tables;

fn nodes(store: &Store) -> Vec<(i32, String, bool)> {
    store.tables().files.iter().map(|f| (f.id, f.path.clone(), f.is_folder)).collect()
}

#[test]
fn path_helpers_split_at_the_last_separator() {
    assert_eq!(get_file_name("a/b/c"), "c");
    assert_eq!(get_file_name("c"), "c");
    assert_eq!(get_folder_path("a/b/c"), "a/b");
    assert_eq!(get_folder_path("c"), "");
    assert_eq!(apply_new_name("a/b/c", "d"), "a/b/d");
    assert_eq!(apply_new_name("c", "d"), "d");
    assert_eq!(join_path("", "c"), "c");
    assert_eq!(join_path("a/b", "c"), "a/b/c");
    assert_eq!(get_file_name("ä/ö/ü"), "ü");
    assert_eq!(get_folder_path("ä/ö/ü"), "ä/ö");
}

#[test]
fn path_helpers_trim_separators_only() {
    assert_eq!(trim_matches_separator("//a/b//"), "a/b");
    assert_eq!(trim_matches_separator(" /a/ "), " /a/ ");
    assert_eq!(trim_matches_separator("///"), "");
    assert_eq!(trim_matches_separator(""), "");
}

#[test]
fn blank_names_hold_white_space_only() {
    assert!(is_blank_text(""));
    assert!(is_blank_text(" \t\n"));
    assert!(is_blank_text("\u{2003}\u{00a0}"));
    assert!(!is_blank_text(" a "));
    assert!(!is_blank_text("_"));
}

#[test]
fn create_folder_twice_fails_and_touches_nothing() {
    let mut store = Store::new();
    create_folder(&mut store, "a".into()).unwrap();
    let before = nodes(&store);

    let actual = create_folder(&mut store, "a".into());

    assert_eq!(actual, Err(ServiceError::AlreadyExists));
    assert_eq!(nodes(&store), before);
    assert_eq!(store.tables().last_file_id, 1);
}

#[test]
fn create_file_creates_the_missing_folders_only() {
    let mut store = Store::new();
    create_folder(&mut store, "a".into()).unwrap();

    let file_id = create_file(&mut store, "a/b/file".into()).unwrap();

    assert_eq!(
        nodes(&store),
        vec![
            (1, "a".to_string(), true),
            (2, "a/b".to_string(), true),
            (3, "a/b/file".to_string(), false),
        ]
    );
    assert_eq!(file_id, 3);
}

#[test]
fn create_file_beside_a_folder_of_the_same_path() {
    let mut store = Store::new();
    create_folder(&mut store, "same".into()).unwrap();

    let file_id = create_file(&mut store, "same".into()).unwrap();

    assert_eq!(file_id, 2);
    assert_eq!(nodes(&store).len(), 2);
}

#[test]
fn create_folder_skips_empty_names_on_the_way() {
    let mut store = Store::new();

    let id = create_folder(&mut store, "a//b".into()).unwrap();

    assert_eq!(nodes(&store), vec![(1, "a".to_string(), true), (2, "a//b".to_string(), true)]);
    assert_eq!(id, 2);
}

#[test]
fn rename_folder_rewrites_the_paths_below_it() {
    let mut store = Store::new();
    let folder_id = create_folder(&mut store, "x/y".into()).unwrap();
    create_file(&mut store, "x/y/f".into()).unwrap();
    create_file(&mut store, "x/y/deep/g".into()).unwrap();
    create_file(&mut store, "x/yy".into()).unwrap();

    rename_folder(&mut store, folder_id, "z".into()).unwrap();

    assert_eq!(
        nodes(&store),
        vec![
            (1, "x".to_string(), true),
            (2, "x/z".to_string(), true),
            (3, "x/z/f".to_string(), false),
            (4, "x/z/deep".to_string(), true),
            (5, "x/z/deep/g".to_string(), false),
            (6, "x/yy".to_string(), false),
        ]
    );
}

#[test]
fn rename_folder_to_its_own_name_fails() {
    let mut store = Store::new();
    let folder_id = create_folder(&mut store, "x".into()).unwrap();

    let actual = rename_folder(&mut store, folder_id, "x".into());

    assert_eq!(actual, Err(ServiceError::AlreadyExists));
}

#[test]
fn rename_file_to_its_own_name_changes_nothing() {
    let mut store = Store::new();
    let file_id = create_file(&mut store, "x".into()).unwrap();

    rename_file(&mut store, file_id, "x".into()).unwrap();

    assert_eq!(nodes(&store), vec![(1, "x".to_string(), false)]);
}

#[test]
fn rename_blank_name_fails() {
    let mut store = Store::new();
    let file_id = create_file(&mut store, "x".into()).unwrap();
    let folder_id = create_folder(&mut store, "y".into()).unwrap();

    assert_eq!(rename_file(&mut store, file_id, "/ /".into()), Err(ServiceError::EmptyName));
    assert_eq!(rename_folder(&mut store, folder_id, "//".into()), Err(ServiceError::EmptyName));
}

#[test]
fn move_folder_into_itself_changes_nothing() {
    let mut store = Store::new();
    let folder_id = create_folder(&mut store, "a/b".into()).unwrap();
    let before = nodes(&store);

    move_folder(&mut store, folder_id, folder_id).unwrap();

    assert_eq!(nodes(&store), before);
}

#[test]
fn move_folder_into_a_folder_far_below_it_fails_and_changes_nothing() {
    let mut store = Store::new();
    let folder_id = create_folder(&mut store, "a".into()).unwrap();
    let deep_id = create_folder(&mut store, "a/b/c".into()).unwrap();
    let before = nodes(&store);

    let actual = move_folder(&mut store, folder_id, deep_id);

    assert_eq!(actual, Err(ServiceError::InvalidMove));
    assert_eq!(nodes(&store), before);
}

#[test]
fn move_folder_beside_a_folder_with_a_longer_name_is_no_inner_move() {
    let mut store = Store::new();
    let folder_id = create_folder(&mut store, "a".into()).unwrap();
    let other_id = create_folder(&mut store, "ab".into()).unwrap();

    move_folder(&mut store, folder_id, other_id).unwrap();

    assert_eq!(nodes(&store), vec![(1, "ab/a".to_string(), true), (2, "ab".to_string(), true)]);
}

#[test]
fn move_file_into_the_folder_that_holds_it_changes_nothing() {
    let mut store = Store::new();
    let file_id = create_file(&mut store, "a/f".into()).unwrap();
    let before = nodes(&store);

    move_file(&mut store, file_id, 1).unwrap();

    assert_eq!(nodes(&store), before);
}

#[test]
fn unknown_ids_are_not_found() {
    let mut store = Store::new();
    let file_id = create_file(&mut store, "f".into()).unwrap();

    assert_eq!(delete_file(&mut store, 9), Err(ServiceError::NotFound));
    assert_eq!(delete_folder(&mut store, 9), Err(ServiceError::NotFound));
    assert_eq!(move_file(&mut store, 9, 0), Err(ServiceError::NotFound));
    assert_eq!(move_file(&mut store, file_id, 9), Err(ServiceError::NotFound));
    assert_eq!(move_folder(&mut store, 9, 0), Err(ServiceError::NotFound));
    assert_eq!(rename_file(&mut store, 9, "x".into()), Err(ServiceError::NotFound));
    assert_eq!(rename_folder(&mut store, 9, "x".into()), Err(ServiceError::NotFound));
    assert_eq!(create_cell(&mut store, 9, "".into(), CellType::Note, 0), Err(ServiceError::NotFound));
    assert_eq!(move_cell(&mut store, 9, 0), Err(ServiceError::NotFound));
    assert_eq!(ServiceError::NotFound.kind(), ErrorKind::NotFound);
}

#[test]
fn a_move_that_would_double_a_path_is_refused_by_the_store() {
    let mut store = Store::new();
    let inner_id = create_folder(&mut store, "a/x".into()).unwrap();
    create_folder(&mut store, "x".into()).unwrap();
    let before = nodes(&store);

    let actual = move_file(&mut store, inner_id, 0);

    assert_eq!(actual, Err(ServiceError::Persistence(StoreFault::DuplicatePath)));
    assert_eq!(nodes(&store), before);
    assert_eq!(actual.unwrap_err().kind(), ErrorKind::Persistence);
}

#[test]
fn a_table_that_has_given_out_its_last_id_takes_no_row() {
    let tables = Tables {
        files: vec![FileModel { id: i32::MAX, path: "a".into(), is_folder: true }],
        cells: vec![],
        repetitions: vec![],
        reviews: vec![],
        last_file_id: i32::MAX,
        last_cell_id: i32::MAX,
        last_repetition_id: 0,
        last_review_id: 0,
    };
    let mut store = Store::from_tables(tables).unwrap();

    assert_eq!(
        create_folder(&mut store, "b".into()),
        Err(ServiceError::Persistence(StoreFault::IdsExhausted))
    );
    assert_eq!(
        create_file(&mut store, "a/f".into()),
        Err(ServiceError::Persistence(StoreFault::IdsExhausted))
    );
    assert_eq!(
        create_cell(&mut store, i32::MAX, "".into(), CellType::Note, 0),
        Err(ServiceError::Persistence(StoreFault::IdsExhausted))
    );
    assert_eq!(store.tables().files.len(), 1);
}

#[test]
fn positions_do_not_leave_the_range_of_the_store() {
    let mut store = Store::new();
    let file_id = create_file(&mut store, "f".into()).unwrap();
    let cell_id = create_cell(&mut store, file_id, "".into(), CellType::Note, i32::MAX).unwrap();

    assert_eq!(
        create_cell(&mut store, file_id, "".into(), CellType::Note, 0),
        Err(ServiceError::Persistence(StoreFault::PositionOutOfRange))
    );
    assert_eq!(
        move_cell(&mut store, cell_id, 0),
        Err(ServiceError::Persistence(StoreFault::PositionOutOfRange))
    );
    assert_eq!(store.tables().cells.len(), 1);
}

#[test]
fn tables_that_are_not_well_formed_make_no_store() {
    let doubled = Tables {
        files: vec![
            FileModel { id: 1, path: "a".into(), is_folder: true },
            FileModel { id: 2, path: "a".into(), is_folder: true },
        ],
        cells: vec![],
        repetitions: vec![],
        reviews: vec![],
        last_file_id: 2,
        last_cell_id: 0,
        last_repetition_id: 0,
        last_review_id: 0,
    };
    let trailing = Tables {
        files: vec![FileModel { id: 1, path: "a/".into(), is_folder: true }],
        cells: vec![],
        repetitions: vec![],
        reviews: vec![],
        last_file_id: 1,
        last_cell_id: 0,
        last_repetition_id: 0,
        last_review_id: 0,
    };

    assert!(Store::from_tables(doubled).is_none());
    assert!(Store::from_tables(trailing).is_none());
}

#[test]
fn error_kinds_follow_the_families() {
    assert_eq!(ServiceError::EmptyName.kind(), ErrorKind::Validation);
    assert_eq!(ServiceError::MalformedContent.kind(), ErrorKind::Validation);
    assert_eq!(ServiceError::AlreadyExists.kind(), ErrorKind::Conflict);
    assert_eq!(ServiceError::NameCollision.kind(), ErrorKind::Conflict);
    assert_eq!(ServiceError::InvalidMove.kind(), ErrorKind::Conflict);
}
