use juicydb::btree::BTree;
use juicydb::btree::BTreeError;
use juicydb::btree::BTreeNode;
use juicydb::btree::KeyCell;
use juicydb::btree::PageStore;
use juicydb::db::DBType;
use juicydb::db::DBValue;
use juicydb::db::Schema;
use juicydb::parser::ParseError;
use juicydb::storage_manager::StorageError;

fn two_columns() -> Schema {
    Schema::from(vec![
        (String::from("id"), DBType::Integer),
        (String::from("name"), DBType::Text),
    ])
}

fn row_for(key: u32) -> Vec<DBValue> {
    vec![
        DBValue::Integer(key as i64 * 10 - 7),
        DBValue::Text(format!("row{}", key)),
    ]
}

#[test]
fn sixty_four_keys_fit_the_root_leaf() {
    let mut tree = BTree::create(two_columns());
    for key in 1..=64u32 {
        assert!(tree.accepts(key, &row_for(key)));
        assert_eq!(tree.insert(key, row_for(key)), Ok(()));
    }
    assert_eq!(tree.lookup(32), Ok(Some(row_for(32))));
    assert_eq!(tree.height(), 0);
    assert_eq!(tree.root(), 1);
}

#[test]
fn sixty_fifth_key_splits_the_root() {
    let mut tree = BTree::create(two_columns());
    for key in 1..=65u32 {
        assert_eq!(tree.insert(key, row_for(key)), Ok(()));
    }
    assert_eq!(tree.height(), 1);
    let schema = two_columns();
    let store = tree.into_store();
    assert_eq!(store.len(), 4);
    let tree = BTree::open(store).unwrap();
    let root = tree.root();
    let store = tree.into_store();
    let node = BTreeNode::read(store.read_page(root).unwrap(), &schema).unwrap();
    assert!(!node.is_leaf());
    assert_eq!(node.len(), 2);
    for rank in 0..2 {
        let child = node.child_at(rank);
        let leaf = BTreeNode::read(store.read_page(child).unwrap(), &schema).unwrap();
        assert!(leaf.is_leaf());
    }
    let tree = BTree::open(store).unwrap();
    for key in 1..=65u32 {
        assert_eq!(tree.lookup(key), Ok(Some(row_for(key))));
    }
    assert_eq!(tree.lookup(66), Ok(None));
    assert_eq!(tree.lookup(0), Ok(None));
}

#[test]
fn many_ascending_keys_grow_the_tree_twice() {
    let mut tree = BTree::create(two_columns());
    let count: u32 = 256 * 64 + 1;
    for key in 0..count {
        assert_eq!(tree.insert(key, row_for(key)), Ok(()));
    }
    assert!(tree.height() >= 2);
    for key in 0..count {
        assert_eq!(tree.lookup(key), Ok(Some(row_for(key))));
    }
    assert_eq!(tree.lookup(count), Ok(None));
}

#[test]
fn descending_and_scattered_keys_are_all_found() {
    let mut tree = BTree::create(two_columns());
    let mut key: u32 = 1;
    let mut keys = Vec::new();
    for _ in 0..5000 {
        key = key.wrapping_mul(1664525).wrapping_add(1013904223);
        keys.push(key);
        assert_eq!(tree.insert(key, row_for(key % 1000)), Ok(()));
    }
    for k in &keys {
        assert_eq!(tree.lookup(*k), Ok(Some(row_for(*k % 1000))));
    }
}

#[test]
fn second_insert_of_a_key_replaces_the_row() {
    let mut tree = BTree::create(two_columns());
    assert_eq!(tree.insert(7, row_for(1)), Ok(()));
    assert_eq!(tree.insert(9, row_for(9)), Ok(()));
    assert_eq!(tree.insert(7, row_for(2)), Ok(()));
    assert_eq!(tree.lookup(7), Ok(Some(row_for(2))));
    assert_eq!(tree.lookup(9), Ok(Some(row_for(9))));
    let schema = two_columns();
    let store = tree.into_store();
    let leaf = BTreeNode::read(store.read_page(1).unwrap(), &schema).unwrap();
    assert_eq!(leaf.len(), 2);
}

#[test]
fn page_with_unknown_kind_is_corrupt() {
    let mut page = [0u8; 4096];
    page[0] = 0x02;
    assert_eq!(
        BTreeNode::read(page, &two_columns()),
        Err(BTreeError::CorruptPage)
    );
}

#[test]
fn page_with_bad_flag_is_corrupt() {
    let mut page = [0u8; 4096];
    page[0] = 0x00;
    page[17] = 0x02;
    assert_eq!(
        BTreeNode::read(page, &two_columns()),
        Err(BTreeError::CorruptPage)
    );
    let mut page = [0u8; 4096];
    page[0] = 0x01;
    page[64] = 0x07;
    assert_eq!(
        BTreeNode::read(page, &two_columns()),
        Err(BTreeError::CorruptPage)
    );
}

#[test]
fn written_page_reads_back() {
    let mut store = PageStore::new();
    let id = store.allocate_page().unwrap();
    assert_eq!(id, 1);
    let mut page = [0u8; 4096];
    for (i, byte) in page.iter_mut().enumerate() {
        *byte = (i % 251) as u8;
    }
    assert_eq!(store.write_page(id, &page), Ok(()));
    assert_eq!(store.read_page(id), Ok(page));
    assert_eq!(store.read_page(0), Ok([0u8; 4096]));
    assert_eq!(store.read_page(2), Err(BTreeError::IoError));
    assert_eq!(store.write_page(2, &page), Err(BTreeError::IoError));
}

#[test]
fn node_round_trips_through_its_page() {
    let schema = two_columns();
    let mut leaf = BTreeNode::new_leaf();
    leaf.insert_row(0, 20, row_for(20));
    leaf.insert_row(0, 10, row_for(10));
    leaf.insert_row(2, 30, vec![DBValue::Integer(i64::MIN), DBValue::Text(String::from("häß"))]);
    let page = leaf.write();
    assert_eq!(page[0], 1);
    assert_eq!(&page[1..4], &[1, 1, 1]);
    assert_eq!(&page[1792..1795], &[1, 0, 2]);
    assert_eq!(&page[2048..2052], &[0, 0, 0, 20]);
    assert_eq!(BTreeNode::read(page, &schema), Ok(leaf));
}

#[test]
fn scan_yields_the_keys_of_the_range_in_order() {
    let mut tree = BTree::create(two_columns());
    for key in [25u32, 5, 20, 10, 15] {
        assert_eq!(tree.insert(key, row_for(key)), Ok(()));
    }
    let cells = tree.scan(10, 20).unwrap();
    let keys: Vec<u32> = cells.iter().map(|c| c.key).collect();
    assert_eq!(keys, vec![10, 15, 20]);
    for cell in &cells {
        assert_eq!(cell.row, row_for(cell.key));
    }
    assert_eq!(tree.scan(21, 24).unwrap().len(), 0);
    assert_eq!(tree.scan(20, 10).unwrap().len(), 0);
    assert_eq!(tree.scan(0, u32::MAX).unwrap().len(), 5);
}

#[test]
fn scan_crosses_leaves_and_levels() {
    let mut tree = BTree::create(two_columns());
    for key in 0..20000u32 {
        assert_eq!(tree.insert(key * 3, row_for(key % 500)), Ok(()));
    }
    assert!(tree.height() >= 2);
    let cells = tree.scan(100, 50000).unwrap();
    let keys: Vec<u32> = cells.iter().map(|c| c.key).collect();
    let expected: Vec<u32> = (0..20000u32).map(|k| k * 3).filter(|k| *k >= 100 && *k <= 50000).collect();
    assert_eq!(keys, expected);
    let all = tree.scan(0, u32::MAX).unwrap();
    assert_eq!(all.len(), 20000);
    for pair in all.windows(2) {
        assert!(pair[0].key < pair[1].key);
    }
}

#[test]
fn rows_that_do_not_suit_the_table_are_not_accepted() {
    let tree = BTree::create(two_columns());
    assert!(tree.accepts(1, &vec![DBValue::Integer(1), DBValue::Text(String::from("nineteen characters"))]));
    assert!(!tree.accepts(1, &vec![DBValue::Integer(1), DBValue::Text(String::from("twenty characters!!!"))]));
    assert!(!tree.accepts(1, &vec![DBValue::Integer(1)]));
    assert!(!tree.accepts(1, &vec![DBValue::Text(String::from("a")), DBValue::Integer(1)]));
    assert!(!tree.accepts(1, &vec![DBValue::Integer(1), DBValue::Text(String::from("a")), DBValue::Integer(2)]));
}

#[test]
fn table_survives_its_pages() {
    let mut tree = BTree::create(two_columns());
    for key in 0..700u32 {
        assert_eq!(tree.insert(key * 7 % 701, row_for(key)), Ok(()));
    }
    let height = tree.height();
    let root = tree.root();
    let pages = tree.into_store().into_pages();
    assert!(pages.len() > 10);
    let tree = BTree::open(PageStore::from_pages(pages)).unwrap();
    assert_eq!(tree.height(), height);
    assert_eq!(tree.root(), root);
    assert_eq!(tree.schema().len(), 2);
    assert_eq!(tree.schema().column_name(1), "name");
    assert_eq!(tree.schema().column_type(0), DBType::Integer);
    for key in 0..700u32 {
        assert_eq!(tree.lookup(key * 7 % 701), Ok(Some(row_for(key))));
    }
}

#[test]
fn open_needs_a_header() {
    assert!(matches!(
        BTree::open(PageStore::from_pages(Vec::new())),
        Err(BTreeError::IoError)
    ));
    let mut page = [0u8; 4096];
    page[8] = 1;
    page[9] = 7;
    assert!(matches!(
        BTree::open(PageStore::from_pages(vec![page])),
        Err(BTreeError::CorruptPage)
    ));
    let mut page = [0u8; 4096];
    page[8] = 1;
    page[9] = 1;
    page[10] = 2;
    page[11] = 0xff;
    page[12] = 0xfe;
    assert!(matches!(
        BTree::open(PageStore::from_pages(vec![page])),
        Err(BTreeError::CorruptPage)
    ));
}

#[test]
fn damaged_pages_are_reported() {
    let mut tree = BTree::create(two_columns());
    for key in 0..200u32 {
        assert_eq!(tree.insert(key, row_for(key)), Ok(()));
    }
    let root = tree.root();
    let mut pages = tree.into_store().into_pages();
    let spare = pages.clone();
    pages[1][0] = 9;
    let mut tree = BTree::open(PageStore::from_pages(pages)).unwrap();
    assert_eq!(tree.lookup(0), Err(BTreeError::CorruptPage));
    assert_eq!(tree.insert(0, row_for(0)), Err(BTreeError::CorruptPage));
    assert!(matches!(tree.scan(0, 10), Err(BTreeError::CorruptPage)));
    let mut pages = spare.clone();
    pages.truncate(root as usize);
    let tree = BTree::open(PageStore::from_pages(pages)).unwrap();
    assert_eq!(tree.lookup(0), Err(BTreeError::IoError));
    // a text that is no UTF-8
    let mut pages = spare;
    let schema = two_columns();
    let leaf = BTreeNode::read(pages[1], &schema).unwrap();
    assert!(leaf.is_leaf());
    let at = 2048 + 4 + 8;
    assert_eq!(pages[1][at], 4);
    pages[1][at + 1] = 0xff;
    assert_eq!(BTreeNode::read(pages[1], &schema), Err(BTreeError::CorruptPage));
}

#[test]
fn internal_node_round_trips_through_its_page() {
    let schema = two_columns();
    let mut node = BTreeNode::new_internal();
    node.insert_child(0, KeyCell { key: 0, page_id: 3 });
    node.insert_child(1, KeyCell { key: 0x01020304, page_id: 0x0a0b0c0d });
    node.insert_child(1, KeyCell { key: 500, page_id: 9 });
    assert_eq!(node.len(), 3);
    assert!(node.check());
    assert_eq!(node.key_at(1), 500);
    assert_eq!(node.child_at(2), 0x0a0b0c0d);
    assert_eq!(node.search(500), 1);
    assert_eq!(node.search(501), 2);
    let page = node.write();
    assert_eq!(page[0], 0);
    assert_eq!(&page[1..5], &[1, 1, 1, 0]);
    assert_eq!(&page[1792..1795], &[0, 2, 1]);
    assert_eq!(&page[2056..2064], &[1, 2, 3, 4, 0x0a, 0x0b, 0x0c, 0x0d]);
    assert_eq!(BTreeNode::read(page, &schema), Ok(node));
}

#[test]
fn freed_slot_is_used_again() {
    let mut leaf = BTreeNode::new_leaf();
    for key in 0..5u32 {
        leaf.insert_row(key as usize, key * 10, row_for(key));
    }
    let cell = leaf.remove_row(1);
    assert_eq!(cell.key, 10);
    assert_eq!(cell.row, row_for(1));
    assert_eq!(leaf.len(), 4);
    leaf.insert_row(4, 99, row_for(9));
    let page = leaf.write();
    // the new cell went into slot 1, and stands at rank 4
    assert_eq!(&page[1..7], &[1, 1, 1, 1, 1, 0]);
    assert_eq!(&page[1792..1797], &[0, 2, 3, 4, 1]);
    assert_eq!(&page[2048 + 32..2048 + 36], &[0, 0, 0, 99]);
    assert!(leaf.check());
}

#[test]
fn split_halves_a_node() {
    let mut leaf = BTreeNode::new_leaf();
    for key in 0..64u32 {
        leaf.insert_row(key as usize, key, row_for(key));
    }
    let right = leaf.split();
    assert_eq!(leaf.len(), 32);
    assert_eq!(right.len(), 32);
    assert_eq!(leaf.key_at(31), 31);
    assert_eq!(right.key_at(0), 32);
    assert_eq!(right.row_at(31), &row_for(63));
}

#[test]
fn errors_and_types_have_their_words() {
    assert_eq!(DBType::Integer.to_string(), "integer");
    assert_eq!(DBType::Text.to_string(), "text");
    assert_eq!(DBValue::Integer(-42).to_string(), "-42");
    assert_eq!(DBValue::Text(String::from("abc")).to_string(), "abc");
    assert_eq!(ParseError::FailedToLex.to_string(), "Failed to lex");
    assert_eq!(ParseError::MissingFrom.to_string(), "Missing 'from' clause in 'select'-statement");
    assert_eq!(ParseError::RunawayText.to_string(), "No closing delimiter for text");
    assert_eq!(StorageError::TableNotFound.to_string(), "Table not found");
    assert_eq!(StorageError::TableNameAlreadyInUse.to_string(), "Table name already in use");
}

#[test]
fn grown_tables_are_well_formed() {
    let mut tree = BTree::create(two_columns());
    assert!(tree.is_well_formed());
    let mut key: u32 = 17;
    for _ in 0..3000 {
        key = key.wrapping_mul(22695477).wrapping_add(1);
        assert_eq!(tree.insert(key, row_for(key % 100)), Ok(()));
    }
    assert!(tree.height() >= 1);
    assert!(tree.is_well_formed());
    let pages = tree.into_store().into_pages();
    let tree = BTree::open(PageStore::from_pages(pages)).unwrap();
    assert!(tree.is_well_formed());
}

#[test]
fn damaged_tables_are_not_well_formed() {
    let mut tree = BTree::create(two_columns());
    for key in 0..300u32 {
        assert_eq!(tree.insert(key, row_for(key)), Ok(()));
    }
    let schema = two_columns();
    let root = tree.root() as usize;
    let pages = tree.into_store().into_pages();
    // a child that is used twice
    let mut twice = pages.clone();
    let mut top = BTreeNode::read(twice[root], &schema).unwrap();
    let first = top.child_at(0);
    let second = top.remove_child(1);
    top.insert_child(1, KeyCell { key: second.key, page_id: first });
    twice[root] = top.write();
    assert!(!BTree::open(PageStore::from_pages(twice)).unwrap().is_well_formed());
    // a key out of the range of its leaf
    let mut strayed = pages.clone();
    let mut leaf = BTreeNode::read(strayed[1], &schema).unwrap();
    let last = leaf.len();
    leaf.insert_row(last, 4000, row_for(1));
    strayed[1] = leaf.write();
    assert!(!BTree::open(PageStore::from_pages(strayed)).unwrap().is_well_formed());
    // a header that names another root
    let mut header = pages.clone();
    header[0][3] = 1;
    let tree = BTree::open(PageStore::from_pages(header)).unwrap();
    assert_eq!(tree.root(), 1);
    assert!(!tree.is_well_formed());
    // the pages as they were
    assert!(BTree::open(PageStore::from_pages(pages)).unwrap().is_well_formed());
}

#[test]
fn header_names_columns_root_and_height() {
    let schema = Schema::from(vec![
        (String::from("größe"), DBType::Integer),
        (String::from("n"), DBType::Text),
    ]);
    assert!(juicydb::btree::header::fits_header(&schema));
    let page = juicydb::btree::header::write_header(&schema, 0x01020304, 7);
    assert_eq!(&page[0..9], &[1, 2, 3, 4, 0, 0, 0, 7, 2]);
    assert_eq!(&page[9..11], &[0, 7]);
    assert_eq!(&page[11..18], "größe".as_bytes());
    assert_eq!(&page[18..21], &[1, 1, b'n']);
    assert!(page[21..].iter().all(|b| *b == 0));
    let (read, root, height) = juicydb::btree::header::read_header(&page).unwrap();
    assert!(read.same_columns(&schema));
    assert_eq!(root, 0x01020304);
    assert_eq!(height, 7);
    let long = Schema::from(vec![(String::from("x").repeat(256), DBType::Integer)]);
    assert!(!juicydb::btree::header::fits_header(&long));
    let many = Schema::from(
        (0..40)
            .map(|i| (format!("{}", i).repeat(120), DBType::Text))
            .collect(),
    );
    assert!(!juicydb::btree::header::fits_header(&many));
}
