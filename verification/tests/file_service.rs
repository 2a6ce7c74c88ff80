use brainy_core::entity::cell::CellType;
use brainy_core::error::ServiceError;
use brainy_core::service::cell_service::create_cell;
use brainy_core::service::file_service::create_file;
use brainy_core::service::file_service::create_folder;
use brainy_core::service::file_service::delete_file;
use brainy_core::service::file_service::delete_folder;
use brainy_core::service::file_service::get_files;
use brainy_core::service::file_service::move_file;
use brainy_core::service::file_service::move_folder;
use brainy_core::service::file_service::rename_file;
use brainy_core::service::file_service::rename_folder;
use brainy_core::store::Store;

#[test]
fn get_files_valid_input_returned_files() {
    let mut store = Store::new();
    create_file(&mut store, "file".into()).unwrap();
    create_folder(&mut store, "folder".into()).unwrap();

    let actual = get_files(&store);

    assert_eq!(actual.len(), 2);
    assert!(actual.iter().any(|f| f.path == "file".to_string()));
    assert!(actual.iter().any(|f| f.path == "folder".to_string()));
}

#[test]
fn create_folder_nested_path_created_all_folders() {
    let mut store = Store::new();

    create_folder(&mut store, "folder 1/folder 2/".into()).unwrap();

    let actual = get_files(&store);
    assert_eq!(actual.len(), 2);
    assert!(actual.iter().any(|f| f.path == "folder 1".to_string()));
    assert!(actual.iter().any(|f| f.path == "folder 1/folder 2".to_string()));
}

#[test]
fn create_folder_empty_name_returned_error() {
    let mut store = Store::new();

    let actual = create_folder(&mut store, "  ".into());

    assert_eq!(actual, Err(ServiceError::EmptyName));
}

#[test]
fn create_folder_existing_folder_returned_error() {
    let mut store = Store::new();
    create_folder(&mut store, "folder 1".into()).unwrap();

    let actual = create_folder(&mut store, "folder 1".into());

    assert_eq!(actual, Err(ServiceError::AlreadyExists));
}

#[test]
fn create_file_empty_name_returned_error() {
    let mut store = Store::new();

    let actual = create_file(&mut store, "  ".into());

    assert_eq!(actual, Err(ServiceError::EmptyName));
}

#[test]
fn create_file_existing_file_returned_error() {
    let mut store = Store::new();
    create_file(&mut store, "file 1".into()).unwrap();

    let actual = create_file(&mut store, "file 1".into());

    assert_eq!(actual, Err(ServiceError::AlreadyExists));
}

#[test]
fn delete_file_valid_input_deleted_file() {
    let mut store = Store::new();
    let file1_id = create_folder(&mut store, "test".into()).unwrap();
    create_file(&mut store, "test".into()).unwrap();
    create_cell(&mut store, file1_id, "".into(), CellType::FlashCard, 0).unwrap();
    let file2_id = create_file(&mut store, "test 2".into()).unwrap();
    create_cell(&mut store, file2_id, "".into(), CellType::FlashCard, 0).unwrap();

    delete_file(&mut store, file1_id).unwrap();

    let actual = get_files(&store);
    assert_eq!(actual.len(), 2);
    assert_eq!(store.tables().cells.len(), 1);
    assert_eq!(store.tables().repetitions.len(), 1);
}

#[test]
fn delete_folder_valid_input_deleted_folder() {
    let mut store = Store::new();
    let folder_id = create_folder(&mut store, "test".into()).unwrap();
    let file1_id = create_file(&mut store, "test/file".into()).unwrap();
    create_cell(&mut store, file1_id, "".into(), CellType::FlashCard, 0).unwrap();
    let file2_id = create_file(&mut store, "test".into()).unwrap();
    create_cell(&mut store, file2_id, "".into(), CellType::FlashCard, 0).unwrap();

    delete_folder(&mut store, folder_id).unwrap();

    let actual = get_files(&store);
    assert_eq!(actual.len(), 1);
    assert_eq!(store.tables().cells.len(), 1);
    assert_eq!(store.tables().repetitions.len(), 1);
}

#[test]
fn move_file_valid_input_moved_file() {
    let mut store = Store::new();
    let file_id = create_file(&mut store, "test/file".into()).unwrap();
    let destination_folder_id = create_folder(&mut store, "test 2".into()).unwrap();

    move_file(&mut store, file_id, destination_folder_id).unwrap();

    let actual = get_files(&store);
    assert_eq!(actual[1].path, "test 2/file".to_string());
}

#[test]
fn move_file_move_to_root_moved_file() {
    let mut store = Store::new();
    let file_id = create_file(&mut store, "test/file".into()).unwrap();

    move_file(&mut store, file_id, 0).unwrap();

    let actual = get_files(&store);
    assert_eq!(actual[1].path, "file".to_string());
}

#[test]
fn move_file_existing_file_error_returned() {
    let mut store = Store::new();
    let file_id = create_file(&mut store, "test/file".into()).unwrap();
    create_file(&mut store, "file".into()).unwrap();

    let actual = move_file(&mut store, file_id, 0);

    assert_eq!(actual, Err(ServiceError::NameCollision));
}

#[test]
fn move_folder_valid_input_moved_folder() {
    let mut store = Store::new();
    let folder_id = create_folder(&mut store, "test".into()).unwrap();
    let destination_folder_id = create_folder(&mut store, "destination".into()).unwrap();
    create_file(&mut store, "test/folder 1/folder 2/file".into()).unwrap();
    create_file(&mut store, "test/file".into()).unwrap();

    move_folder(&mut store, folder_id, destination_folder_id).unwrap();

    let actual = get_files(&store);
    assert!(actual.iter().any(|f| f.path == "destination".to_string()));
    assert!(actual.iter().any(|f| f.path == "destination/test/folder 1".to_string()));
    assert!(actual.iter().any(|f| f.path == "destination/test/folder 1/folder 2".to_string()));
    assert!(actual
        .iter()
        .any(|f| f.path == "destination/test/folder 1/folder 2/file".to_string()));
    assert!(actual.iter().any(|f| f.path == "destination/test/file".to_string()));
}

#[test]
fn move_folder_move_to_root_moved_folder() {
    let mut store = Store::new();
    create_folder(&mut store, "test".into()).unwrap();
    let folder_id = create_folder(&mut store, "test/folder 1".into()).unwrap();
    create_file(&mut store, "test/folder 1/folder 2/file".into()).unwrap();
    create_file(&mut store, "test/file".into()).unwrap();

    move_folder(&mut store, folder_id, 0).unwrap();

    let actual = get_files(&store);
    assert!(actual.iter().any(|f| f.path == "test".to_string()));
    assert!(actual.iter().any(|f| f.path == "folder 1".to_string()));
    assert!(actual.iter().any(|f| f.path == "folder 1/folder 2".to_string()));
    assert!(actual.iter().any(|f| f.path == "folder 1/folder 2/file".to_string()));
    assert!(actual.iter().any(|f| f.path == "test/file".to_string()));
}

#[test]
fn move_folder_move_to_inner_folder_error_returned() {
    let mut store = Store::new();
    let folder_id = create_folder(&mut store, "test".into()).unwrap();
    let inner_folder_id = create_folder(&mut store, "test/folder 1".into()).unwrap();

    let actual = move_folder(&mut store, folder_id, inner_folder_id);

    assert_eq!(actual, Err(ServiceError::InvalidMove));
}

#[test]
fn move_folder_existing_folder_error_returned() {
    let mut store = Store::new();
    let folder_id = create_folder(&mut store, "test/folder 1".into()).unwrap();
    create_folder(&mut store, "folder 1".into()).unwrap();

    let actual = move_folder(&mut store, folder_id, 0);

    assert_eq!(actual, Err(ServiceError::NameCollision));
}

#[test]
fn rename_file_inside_folder_renamed_file() {
    let mut store = Store::new();
    let file_id = create_file(&mut store, "folder/test".into()).unwrap();

    rename_file(&mut store, file_id, "/new name/".into()).unwrap();

    let actual = get_files(&store);
    assert_eq!(actual[1].path, "folder/new name".to_string());
}

#[test]
fn rename_file_placed_on_root_file_renamed() {
    let mut store = Store::new();
    let file_id = create_file(&mut store, "test".into()).unwrap();

    rename_file(&mut store, file_id, "/new name/".into()).unwrap();

    let actual = get_files(&store);
    assert_eq!(actual[0].path, "new name".to_string());
}

#[test]
fn rename_file_existing_file_error_returned() {
    let mut store = Store::new();
    let file_id = create_file(&mut store, "test".into()).unwrap();
    create_file(&mut store, "new name".into()).unwrap();

    let actual = rename_file(&mut store, file_id, "/new name/".into());

    assert_eq!(actual, Err(ServiceError::AlreadyExists));
}

#[test]
fn rename_folder_valid_input_renamed_folder() {
    let mut store = Store::new();
    let folder_id = create_folder(&mut store, "folder 1".into()).unwrap();
    create_file(&mut store, "folder 1/folder 2/file".into()).unwrap();
    create_file(&mut store, "folder 1/folder 2/folder 3/file".into()).unwrap();

    rename_folder(&mut store, folder_id, "/new name/subfolder".into()).unwrap();

    let actual = get_files(&store);
    assert!(actual.iter().any(|f| f.path == "new name/subfolder".to_string()));
    assert!(actual.iter().any(|f| f.path == "new name/subfolder/folder 2".to_string()));
    assert!(actual.iter().any(|f| f.path == "new name/subfolder/folder 2/file".to_string()));
    assert!(actual
        .iter()
        .any(|f| f.path == "new name/subfolder/folder 2/folder 3".to_string()));
    assert!(actual
        .iter()
        .any(|f| f.path == "new name/subfolder/folder 2/folder 3/file".to_string()));
}

#[test]
fn rename_folder_existing_folder_returned_error() {
    let mut store = Store::new();
    let folder_id = create_folder(&mut store, "folder 1".into()).unwrap();
    create_folder(&mut store, "folder 2".into()).unwrap();

    let actual = rename_folder(&mut store, folder_id, "folder 2".into());

    assert_eq!(actual, Err(ServiceError::AlreadyExists));
}
