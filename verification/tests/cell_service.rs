use brainy_core::dto::update_cell_request::UpdateCellRequest;
use brainy_core::entity::cell::CellType;
use brainy_core::service::cell_service::create_cell;
use brainy_core::service::cell_service::delete_cell;
use brainy_core::service::cell_service::get_cells_for_files;
use brainy_core::service::cell_service::get_file_cells_ordered_by_index;
use brainy_core::service::cell_service::move_cell;
use brainy_core::service::cell_service::update_cells_contents;
use brainy_core::service::file_service::create_file;
use brainy_core::service::repetition_service::get_file_repetitions;
use brainy_core::store::Store;

fn new_file(store: &mut Store, path: &str) -> i32 {
    create_file(store, path.to_string()).unwrap()
}

#[test]
fn create_cell_valid_input_created_cells() {
    let mut store = Store::new();
    let file_id = new_file(&mut store, "file 1");
    let index = 1;
    for i in 0..2 {
        create_cell(&mut store, file_id, "Already created".into(), CellType::Note, i).unwrap();
    }

    let actual_id =
        create_cell(&mut store, file_id, "New cell content".into(), CellType::Note, index)
            .unwrap();

    let actual = get_file_cells_ordered_by_index(&store, file_id);
    assert_eq!(actual[1].content, String::from("New cell content"));
    assert_eq!(actual[1].id, actual_id);
    assert_eq!(actual.iter().map(|c| c.index).collect::<Vec<i32>>(), vec![0, 1, 2]);
}

#[test]
fn delete_cell_valid_input_deleted_cell() {
    let mut store = Store::new();
    let file_id = new_file(&mut store, "file 1");
    let cell_id = create_cell(&mut store, file_id, "".into(), CellType::Note, 0).unwrap();

    delete_cell(&mut store, cell_id).unwrap();

    let actual = get_file_cells_ordered_by_index(&store, file_id);
    assert_eq!(actual.len(), 0);
}

#[test]
fn move_cell_move_forward_moved_cell() {
    let mut store = Store::new();
    let file_id = new_file(&mut store, "file 1");
    create_cell(&mut store, file_id, "0".into(), CellType::FlashCard, 0).unwrap();
    let cell_id = create_cell(&mut store, file_id, "1".into(), CellType::FlashCard, 1).unwrap();
    create_cell(&mut store, file_id, "2".into(), CellType::FlashCard, 2).unwrap();
    create_cell(&mut store, file_id, "3".into(), CellType::Note, 3).unwrap();
    let new_index = 3;

    move_cell(&mut store, cell_id, new_index).unwrap();

    let actual = get_file_cells_ordered_by_index(&store, file_id);
    assert_eq!(actual[0].content, "0".to_string());
    assert_eq!(actual[1].content, "2".to_string());
    assert_eq!(actual[2].content, "1".to_string());
    assert_eq!(actual[3].content, "3".to_string());
    assert_eq!(actual.iter().map(|c| c.index).collect::<Vec<i32>>(), vec![0, 1, 2, 3]);
}

#[test]
fn move_cell_move_backward_moved_cell() {
    let mut store = Store::new();
    let file_id = new_file(&mut store, "file 1");
    create_cell(&mut store, file_id, "0".into(), CellType::FlashCard, 0).unwrap();
    create_cell(&mut store, file_id, "1".into(), CellType::FlashCard, 1).unwrap();
    let cell_id = create_cell(&mut store, file_id, "2".into(), CellType::FlashCard, 2).unwrap();
    create_cell(&mut store, file_id, "3".into(), CellType::Note, 3).unwrap();
    let new_index = 1;

    move_cell(&mut store, cell_id, new_index).unwrap();

    let actual = get_file_cells_ordered_by_index(&store, file_id);
    assert_eq!(actual[0].content, "0".to_string());
    assert_eq!(actual[1].content, "2".to_string());
    assert_eq!(actual[2].content, "1".to_string());
    assert_eq!(actual[3].content, "3".to_string());
    assert_eq!(actual.iter().map(|c| c.index).collect::<Vec<i32>>(), vec![0, 1, 2, 3]);
}

#[test]
fn update_cells_contents_valid_input_content_updated() {
    let mut store = Store::new();
    let file_id = new_file(&mut store, "file 1");
    let cell1_id =
        create_cell(&mut store, file_id, "Old content 1".into(), CellType::FlashCard, 2).unwrap();
    let cell2_id =
        create_cell(&mut store, file_id, "Old content 2".into(), CellType::FlashCard, 2).unwrap();
    let requests = vec![
        UpdateCellRequest { cell_id: cell1_id, content: "New content 1".into() },
        UpdateCellRequest { cell_id: cell2_id, content: "New content 2".into() },
    ];

    update_cells_contents(&mut store, requests).unwrap();

    let cells = &store.tables().cells;
    let actual_cell1 = cells.iter().find(|c| c.id == cell1_id).unwrap();
    assert_eq!(actual_cell1.content, "New content 1".to_string());
    let actual_cell2 = cells.iter().find(|c| c.id == cell2_id).unwrap();
    assert_eq!(actual_cell2.content, "New content 2".to_string());
    let repetition_count = get_file_repetitions(&store, file_id);
    assert_eq!(repetition_count.len(), 2);
}

#[test]
fn get_cells_for_files_valid_input_returned_cells() {
    let mut store = Store::new();
    let file1_id = new_file(&mut store, "file 1");
    for i in 0..2 {
        create_cell(&mut store, file1_id, "".into(), CellType::Note, i).unwrap();
    }
    let file2_id = new_file(&mut store, "file 2");
    for i in 0..3 {
        create_cell(&mut store, file2_id, "".into(), CellType::Note, i).unwrap();
    }

    let actual = get_cells_for_files(&store, vec![file1_id, file2_id]);

    assert_eq!(5, actual.len());
}
