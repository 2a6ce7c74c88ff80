use brainy_core::dto::exported_item::ExportedCell;
use brainy_core::dto::exported_item::ExportedItem;
use brainy_core::dto::exported_item::ExportedItemType;
use brainy_core::entity::cell::CellType;
use brainy_core::entity::repetition::State;
use brainy_core::error::ServiceError;
use brainy_core::service::cell_service::create_cell;
use brainy_core::service::cell_service::get_file_cells_ordered_by_index;
use brainy_core::service::export_import_service::export;
use brainy_core::service::export_import_service::import;
use brainy_core::service::file_service::create_file;
use brainy_core::service::file_service::create_folder;
use brainy_core::service::repetition_service::get_file_repetitions;
use brainy_core::store::Store;

fn file_with_cell_of(
    store: &mut Store,
    file_name: &str,
    cell_type: CellType,
    content: &str,
) -> (i32, i32) {
    let file_id = create_file(store, file_name.into()).unwrap();
    let cell_id = create_cell(store, file_id, content.into(), cell_type, 0).unwrap();
    (file_id, cell_id)
}

fn flash_card(question: &str) -> String {
    format!("{{\"question\":\"{question}\",\"answer\":\"\"}}")
}

fn true_false(question: &str) -> String {
    format!("{{\"question\":\"{question}\",\"isTrue\":false}}")
}

#[test]
fn export_file_exported_file_correctly() {
    let mut store = Store::new();
    let file_content = flash_card("file content");
    let (file_id, _) =
        file_with_cell_of(&mut store, "folder/file 1", CellType::FlashCard, &file_content);

    let exported_item = export(&store, file_id).unwrap();

    assert_eq!(exported_item.item_type, ExportedItemType::File);
    assert_eq!(exported_item.path, "file 1".to_string());
    let cells = exported_item.cells.unwrap();
    assert_eq!(cells.len(), 1);
    assert_eq!(cells[0].content, file_content);
    assert_eq!(cells[0].cell_type, CellType::FlashCard);
    assert_eq!(exported_item.children, None);
}

#[test]
fn export_item_folder_exported_folder_correctly() {
    let mut store = Store::new();
    let folder_id = create_folder(&mut store, "folder 1/folder 2".into()).unwrap();
    file_with_cell_of(
        &mut store,
        "folder 1/folder 2/file 1",
        CellType::FlashCard,
        &flash_card("file content"),
    );
    file_with_cell_of(
        &mut store,
        "folder 1/folder 2/file 2",
        CellType::TrueFalse,
        &true_false("file content"),
    );
    file_with_cell_of(
        &mut store,
        "folder 1/folder 2/folder 3/file 3",
        CellType::Note,
        "file content",
    );

    let exported_item = export(&store, folder_id).unwrap();

    assert_eq!(exported_item.item_type, ExportedItemType::Folder);
    assert_eq!(exported_item.path, "folder 2".to_string());
    assert_eq!(exported_item.cells, None);
    let children = exported_item.children.unwrap();
    assert_eq!(children.len(), 3);
    let folder3 = children.iter().find(|child| child.path == "folder 2/folder 3").unwrap();
    assert_eq!(folder3.item_type, ExportedItemType::Folder);
    assert_eq!(folder3.cells, None);
    let folder3_children = folder3.children.as_ref().unwrap();
    assert_eq!(folder3_children.len(), 1);
    let file3 = folder3_children
        .iter()
        .find(|child| child.path == "folder 2/folder 3/file 3".to_string())
        .unwrap();
    assert_eq!(file3.item_type, ExportedItemType::File);
    assert_eq!(file3.children, None);
    let file3_cells = file3.cells.as_ref().unwrap();
    assert_eq!(file3_cells.len(), 1);
    assert_eq!(file3_cells[0].content, "file content");
    assert_eq!(file3_cells[0].cell_type, CellType::Note);
}

#[test]
fn export_unknown_item_returned_error() {
    let store = Store::new();

    let actual = export(&store, 3);

    assert_eq!(actual, Err(ServiceError::NotFound));
}

#[test]
fn export_file_cells_come_in_the_order_of_their_positions() {
    let mut store = Store::new();
    let file_id = create_file(&mut store, "file".into()).unwrap();
    create_cell(&mut store, file_id, "last".into(), CellType::Note, 0).unwrap();
    create_cell(&mut store, file_id, "first".into(), CellType::Note, 0).unwrap();

    let exported_item = export(&store, file_id).unwrap();

    let contents: Vec<String> =
        exported_item.cells.unwrap().iter().map(|cell| cell.content.clone()).collect();
    assert_eq!(contents, vec!["first".to_string(), "last".to_string()]);
}

#[test]
fn import_valid_input_imported_file_correctly() {
    let mut store = Store::new();
    let folder2_id = create_folder(&mut store, "folder 1/folder 2".into()).unwrap();
    let file1_cell_content = flash_card("old content");
    file_with_cell_of(
        &mut store,
        "folder 1/folder 2/file 1",
        CellType::FlashCard,
        &file1_cell_content,
    );
    file_with_cell_of(
        &mut store,
        "folder 1/folder 2/file 2",
        CellType::TrueFalse,
        &true_false("old content"),
    );
    file_with_cell_of(
        &mut store,
        "folder 1/folder 2/folder 3/file 3",
        CellType::Note,
        "old content",
    );
    let import_folder_id = create_folder(&mut store, "import folder".into()).unwrap();
    let exported_item = export(&store, folder2_id).unwrap();

    import(&mut store, &exported_item, import_folder_id).unwrap();

    let files = &store.tables().files;
    let import_folder_children: Vec<_> =
        files.iter().filter(|file| file.path.starts_with("import folder/")).collect();
    assert_eq!(import_folder_children.len(), 5);
    assert!(import_folder_children
        .iter()
        .any(|file| file.path == "import folder/folder 2" && file.is_folder));
    assert!(import_folder_children
        .iter()
        .any(|file| file.path == "import folder/folder 2/file 1" && !file.is_folder));
    assert!(import_folder_children
        .iter()
        .any(|file| file.path == "import folder/folder 2/file 2" && !file.is_folder));
    assert!(import_folder_children
        .iter()
        .any(|file| file.path == "import folder/folder 2/folder 3" && file.is_folder));
    assert!(import_folder_children
        .iter()
        .any(|file| file.path == "import folder/folder 2/folder 3/file 3" && !file.is_folder));
    let file1_id = import_folder_children
        .iter()
        .find(|file| file.path == "import folder/folder 2/file 1")
        .unwrap()
        .id;
    let file1_cells = get_file_cells_ordered_by_index(&store, file1_id);
    assert_eq!(file1_cells.len(), 1);
    assert_eq!(file1_cells[0].cell_type, CellType::FlashCard);
    assert_eq!(file1_cells[0].content, file1_cell_content);
    let file1_repetitions = get_file_repetitions(&store, file1_id);
    assert_eq!(file1_repetitions.len(), 1);
    assert_eq!(file1_repetitions[0].state, State::New);
}

#[test]
fn import_into_root_reproduces_what_was_exported() {
    let mut source = Store::new();
    let folder_id = create_folder(&mut source, "a/b".into()).unwrap();
    let file_id = create_file(&mut source, "a/b/c/notes".into()).unwrap();
    create_cell(&mut source, file_id, "one".into(), CellType::Note, 0).unwrap();
    create_cell(&mut source, file_id, "<b>two</b>".into(), CellType::FlashCard, 1).unwrap();
    let exported_item = export(&source, folder_id).unwrap();
    let mut target = Store::new();

    import(&mut target, &exported_item, 0).unwrap();

    let paths: Vec<(String, bool)> =
        target.tables().files.iter().map(|f| (f.path.clone(), f.is_folder)).collect();
    assert_eq!(
        paths,
        vec![
            ("b".to_string(), true),
            ("b/c".to_string(), true),
            ("b/c/notes".to_string(), false),
        ]
    );
    assert_eq!(export(&target, 1).unwrap(), exported_item);
    let repetitions = &target.tables().repetitions;
    assert_eq!(repetitions.len(), 1);
    assert_eq!(repetitions[0].state, State::New);
    assert_eq!(repetitions[0].reps, 0);
}

#[test]
fn import_cleans_the_content_of_cells() {
    let mut store = Store::new();
    let item = ExportedItem::new(
        "file".into(),
        ExportedItemType::File,
        Some(vec![ExportedCell {
            content: r#"<p onclick="x()">text<!-- hidden --></p><script>alert(1)</script>"#.into(),
            cell_type: CellType::Note,
        }]),
        None,
    );

    import(&mut store, &item, 0).unwrap();

    let cells = &store.tables().cells;
    assert_eq!(cells.len(), 1);
    assert_eq!(cells[0].content, "<p>text</p>alert(1)");
}

#[test]
fn import_content_that_cannot_be_cleaned_returned_error_and_wrote_nothing() {
    let mut store = Store::new();
    create_folder(&mut store, "kept".into()).unwrap();
    let item = ExportedItem::new(
        "folder".into(),
        ExportedItemType::Folder,
        None,
        Some(vec![ExportedItem::new(
            "folder/file".into(),
            ExportedItemType::File,
            Some(vec![ExportedCell {
                content: "<SeLect><xmp><script>x</script></select>".into(),
                cell_type: CellType::Note,
            }]),
            None,
        )]),
    );

    let actual = import(&mut store, &item, 0);

    assert_eq!(actual, Err(ServiceError::MalformedContent));
    assert_eq!(store.tables().files.len(), 1);
    assert_eq!(store.tables().cells.len(), 0);
}

#[test]
fn import_into_unknown_folder_returned_error() {
    let mut store = Store::new();
    let item = ExportedItem::new("file".into(), ExportedItemType::File, None, None);

    let actual = import(&mut store, &item, 5);

    assert_eq!(actual, Err(ServiceError::NotFound));
}

#[test]
fn import_existing_file_returned_error_and_wrote_nothing() {
    let mut store = Store::new();
    create_file(&mut store, "folder/file".into()).unwrap();
    let item = ExportedItem::new(
        "other".into(),
        ExportedItemType::Folder,
        None,
        Some(vec![
            ExportedItem::new("other/new".into(), ExportedItemType::File, None, None),
            ExportedItem::new("folder/file".into(), ExportedItemType::File, None, None),
        ]),
    );

    let actual = import(&mut store, &item, 0);

    assert_eq!(actual, Err(ServiceError::AlreadyExists));
    assert_eq!(store.tables().files.len(), 2);
}

#[test]
fn import_into_another_folder_exports_alike_and_gives_new_ids() {
    let mut store = Store::new();
    let folder_id = create_folder(&mut store, "shelf/book".into()).unwrap();
    let first = create_file(&mut store, "shelf/book/first".into()).unwrap();
    let second = create_file(&mut store, "shelf/book/part/second".into()).unwrap();
    create_folder(&mut store, "shelf/book/empty".into()).unwrap();
    create_cell(&mut store, first, flash_card("q"), CellType::FlashCard, 0).unwrap();
    create_cell(&mut store, first, "plain".into(), CellType::Note, 1).unwrap();
    create_cell(&mut store, second, true_false("t"), CellType::TrueFalse, 0).unwrap();
    let copies = create_folder(&mut store, "copies".into()).unwrap();
    let exported_item = export(&store, folder_id).unwrap();
    let nodes_before = store.tables().files.len();
    let last_id_before = store.tables().last_file_id;
    let repetitions_before = store.tables().repetitions.len();

    import(&mut store, &exported_item, copies).unwrap();

    let nodes = &store.tables().files;
    assert_eq!(nodes[nodes_before].path, "copies/book".to_string());
    assert!(nodes[nodes_before].is_folder);
    assert!(nodes[nodes_before..].iter().all(|node| node.id > last_id_before));
    let paths: Vec<String> = nodes[nodes_before..].iter().map(|node| node.path.clone()).collect();
    assert_eq!(
        paths,
        vec![
            "copies/book".to_string(),
            "copies/book/first".to_string(),
            "copies/book/part".to_string(),
            "copies/book/part/second".to_string(),
            "copies/book/empty".to_string(),
        ]
    );
    assert_eq!(export(&store, nodes[nodes_before].id).unwrap(), exported_item);
    assert_eq!(export(&store, folder_id).unwrap(), exported_item);
    let repetitions = &store.tables().repetitions;
    assert_eq!(repetitions.len(), repetitions_before + 2);
    assert!(repetitions[repetitions_before..]
        .iter()
        .all(|row| row.state == State::New && row.reps == 0 && row.lapses == 0));
}
