use brainy_core::entity::cell::CellType;
use brainy_core::entity::cell::Model as Cell;
use brainy_core::error::ServiceError;
use brainy_core::service::cell_service::create_cell;
use brainy_core::service::cell_service::delete_cell;
use brainy_core::service::cell_service::get_file_cells_ordered_by_index;
use brainy_core::service::cell_service::move_cell;
use brainy_core::service::cell_service::update_cell_content;
use brainy_core::service::cell_service::update_cells_contents;
use brainy_core::dto::update_cell_request::UpdateCellRequest;
use brainy_core::service::file_service::create_file;
use brainy_core::store::Store;

fn file_with_cells(store: &mut Store, path: &str, count: i32) -> (i32, Vec<i32>) {
    let file_id = create_file(store, path.into()).unwrap();
    let mut ids = vec![];
    for i in 0..count {
        ids.push(create_cell(store, file_id, format!("{i}"), CellType::Note, i).unwrap());
    }
    (file_id, ids)
}

fn order(store: &Store, file_id: i32) -> Vec<(String, i32)> {
    get_file_cells_ordered_by_index(store, file_id)
        .iter()
        .map(|cell| (cell.content.clone(), cell.index))
        .collect()
}

fn listed(contents: &[&str]) -> Vec<(String, i32)> {
    contents.iter().enumerate().map(|(i, content)| (content.to_string(), i as i32)).collect()
}

#[test]
fn move_cell_to_every_position_keeps_the_positions_dense() {
    for from in 0..4usize {
        for to in 0..=4i32 {
            let mut store = Store::new();
            let (file_id, ids) = file_with_cells(&mut store, "file", 4);

            move_cell(&mut store, ids[from], to).unwrap();

            let mut expected: Vec<String> = (0..4).map(|i| format!("{i}")).collect();
            let moved = expected.remove(from);
            let target = if to as usize > from { to as usize - 1 } else { to as usize };
            expected.insert(target, moved);
            let expected: Vec<&str> = expected.iter().map(|s| s.as_str()).collect();
            assert_eq!(order(&store, file_id), listed(&expected));
        }
    }
}

#[test]
fn move_cell_leaves_other_files_alone() {
    let mut store = Store::new();
    let (_, ids) = file_with_cells(&mut store, "file", 3);
    let (other_id, _) = file_with_cells(&mut store, "other", 3);

    move_cell(&mut store, ids[0], 3).unwrap();

    assert_eq!(order(&store, other_id), listed(&["0", "1", "2"]));
}

#[test]
fn create_cell_in_the_middle_moves_the_cells_after_it_up() {
    let mut store = Store::new();
    let (file_id, _) = file_with_cells(&mut store, "file", 3);

    create_cell(&mut store, file_id, "new".into(), CellType::Note, 1).unwrap();

    assert_eq!(order(&store, file_id), listed(&["0", "new", "1", "2"]));
}

#[test]
fn delete_cell_in_the_middle_moves_the_cells_after_it_down() {
    let mut store = Store::new();
    let (file_id, ids) = file_with_cells(&mut store, "file", 4);

    delete_cell(&mut store, ids[1]).unwrap();

    assert_eq!(order(&store, file_id), listed(&["0", "2", "3"]));
}

#[test]
fn delete_cell_takes_its_repetitions_along() {
    let mut store = Store::new();
    let file_id = create_file(&mut store, "file".into()).unwrap();
    let kept = create_cell(&mut store, file_id, "".into(), CellType::FlashCard, 0).unwrap();
    let gone = create_cell(&mut store, file_id, "".into(), CellType::TrueFalse, 1).unwrap();

    delete_cell(&mut store, gone).unwrap();

    let owners: Vec<i32> = store.tables().repetitions.iter().map(|r| r.cell_id).collect();
    assert_eq!(owners, vec![kept]);
    assert_eq!(delete_cell(&mut store, gone), Err(ServiceError::NotFound));
}

#[test]
fn cells_that_share_a_position_are_listed_in_the_order_of_their_ids() {
    let mut store = Store::new();
    let file_id = create_file(&mut store, "file".into()).unwrap();
    let mut tables = store.tables().duplicate();
    for (id, index) in [(1, 7), (2, 7), (3, 3)] {
        tables.cells.push(Cell {
            id,
            file_id,
            index,
            content: String::new(),
            cell_type: CellType::Note,
        });
    }
    tables.last_cell_id = 3;
    let store = Store::from_tables(tables).unwrap();

    let listed: Vec<(i32, i32)> = get_file_cells_ordered_by_index(&store, file_id)
        .iter()
        .map(|cell| (cell.index, cell.id))
        .collect();

    assert_eq!(listed, vec![(3, 3), (7, 1), (7, 2)]);
}

#[test]
fn move_cell_with_positions_out_of_range_follows_the_two_shifts() {
    let mut store = Store::new();
    let file_id = create_file(&mut store, "file".into()).unwrap();
    let first = create_cell(&mut store, file_id, "a".into(), CellType::Note, 7).unwrap();
    let second = create_cell(&mut store, file_id, "b".into(), CellType::Note, 9).unwrap();
    let third = create_cell(&mut store, file_id, "c".into(), CellType::Note, 3).unwrap();

    move_cell(&mut store, third, 7).unwrap();

    let listed: Vec<(i32, i32)> = get_file_cells_ordered_by_index(&store, file_id)
        .iter()
        .map(|cell| (cell.index, cell.id))
        .collect();
    assert_eq!(listed, vec![(6, third), (8, first), (10, second)]);
}

#[test]
fn update_cell_content_changes_the_content_only() {
    let mut store = Store::new();
    let (file_id, ids) = file_with_cells(&mut store, "file", 2);

    update_cell_content(&mut store, ids[1], "changed".into()).unwrap();

    assert_eq!(order(&store, file_id), listed(&["0", "changed"]));
    assert_eq!(update_cell_content(&mut store, 99, "x".into()), Err(ServiceError::NotFound));
}

#[test]
fn update_cells_contents_takes_place_entirely_or_not_at_all() {
    let mut store = Store::new();
    let (file_id, ids) = file_with_cells(&mut store, "file", 2);
    let requests = vec![
        UpdateCellRequest { cell_id: ids[0], content: "changed".into() },
        UpdateCellRequest { cell_id: 99, content: "lost".into() },
    ];

    let actual = update_cells_contents(&mut store, requests);

    assert_eq!(actual, Err(ServiceError::NotFound));
    assert_eq!(order(&store, file_id), listed(&["0", "1"]));
}
