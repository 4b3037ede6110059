//! The table-leaf protocol at page level: exact fill and fresh images.

use basic_db::database::{create_new_database, load};
use basic_db::page::{add_cell, read_page, PageType};
use basic_db::DbError;

fn fresh_leaf_page(size: usize) -> basic_db::page::Page {
    let mut bytes = vec![0u8; size];
    bytes[0] = 13;
    read_page(bytes, 0).unwrap()
}

#[test]
fn exact_fill_succeeds_then_page_full() {
    // a fresh 170-byte leaf has 170 - 8 = 162 free bytes; a 160-byte cell
    // and its 2-byte pointer leave exactly zero
    let mut page = fresh_leaf_page(170);
    let record = vec![0xABu8; 160];
    add_cell(&mut page, 0, &record).unwrap();
    match &page.page_type {
        PageType::TableLeaf(leaf) => {
            assert_eq!(leaf.cell_count, 1);
            assert_eq!(leaf.cell_content_start, 10);
        }
        _ => panic!("not a leaf"),
    }
    // no room is left, even for an empty cell's pointer
    let empty: Vec<u8> = Vec::new();
    assert_eq!(add_cell(&mut page, 0, &empty).unwrap_err(), DbError::PageFull);
    // the failed insert left the page unchanged
    match &page.page_type {
        PageType::TableLeaf(leaf) => {
            assert_eq!(leaf.cell_count, 1);
            assert_eq!(leaf.cell_content_start, 10);
        }
        _ => panic!("not a leaf"),
    }
}

#[test]
fn one_byte_short_of_exact_fill() {
    let mut page = fresh_leaf_page(170);
    // 161 bytes would need 163 with the pointer: over by one
    let record = vec![0u8; 161];
    assert_eq!(add_cell(&mut page, 0, &record).unwrap_err(), DbError::PageFull);
    // 159 bytes leave one byte free
    let record2 = vec![0u8; 159];
    add_cell(&mut page, 0, &record2).unwrap();
}

#[test]
fn free_space_accounting() {
    let mut page = fresh_leaf_page(170);
    match &page.page_type {
        PageType::TableLeaf(leaf) => {
            assert_eq!(leaf.free_space(0, 170), 162);
        }
        _ => panic!("not a leaf"),
    }
    // each cell costs its bytes plus a two-byte pointer
    let record = vec![7u8; 20];
    add_cell(&mut page, 0, &record).unwrap();
    match &page.page_type {
        PageType::TableLeaf(leaf) => {
            assert_eq!(leaf.free_space(0, 170), 162 - 20 - 2);
        }
        _ => panic!("not a leaf"),
    }
}

#[test]
fn fresh_database_header() {
    let db = create_new_database(4096);
    assert_eq!(db.file.len(), 4096);
    assert_eq!(db.page_count, 1);
    // bytes 0..6 decode to (page_size, 1)
    let ps = (db.file[0] as u32) * 256 + db.file[1] as u32;
    assert_eq!(ps, 4096);
    let pc = ((db.file[2] as u32) << 24)
        | ((db.file[3] as u32) << 16)
        | ((db.file[4] as u32) << 8)
        | db.file[5] as u32;
    assert_eq!(pc, 1);
    assert_eq!(db.file[100], 13);
    // everything else is zero
    for (i, b) in db.file.iter().enumerate() {
        if !(i < 6 || i == 100) {
            assert_eq!(*b, 0);
        }
    }
}

#[test]
fn page_manager_round_trip() {
    let mut db = create_new_database(512);
    // allocate a second page and write a recognizable pattern into it
    let n = basic_db::database::create_page(&mut db).unwrap();
    assert_eq!(n, 2);
    assert_eq!(db.page_count, 2);
    assert_eq!(db.file.len(), 1024);

    let mut bytes = vec![0u8; 512];
    bytes[0] = 13;
    bytes[511] = 0x77;
    db.save_page(bytes, 2).unwrap();
    assert_eq!(db.file[1023], 0x77);

    // a dirty page shadows the image until commit flushes it
    let page = db.read_page(2).unwrap();
    let mut copy = page;
    basic_db::page::add_cell(&mut copy, 0, &vec![1u8, 2, 3]).unwrap();
    let expected = copy.data.clone();
    db.page_cache.push((2, copy));
    let seen = db.read_page(2).unwrap();
    assert_eq!(seen.data, expected);
    assert_ne!(db.file[512..1024].to_vec(), expected);
    db.commit().unwrap();
    assert!(db.page_cache.is_empty());
    assert_eq!(db.file[512..1024].to_vec(), expected);
}

#[test]
fn load_nonexistent_creates_fresh_image() {
    let db = load(None, 4096).unwrap();
    assert_eq!(db.file.len(), 4096);
    assert_eq!(db.page_count, 1);
    assert_eq!(db.file[100], 0x0D);
}

#[test]
fn create_table_extends_file_and_counts_pages() {
    let mut db = load(None, 4096).unwrap();
    let columns = vec![
        ("count".to_string(), basic_db::catalog::ColumnType::Integer),
        ("name".to_string(), basic_db::catalog::ColumnType::Text),
    ];
    db.create_table("table1".to_string(), columns.clone()).unwrap();
    db.create_table("table2".to_string(), columns).unwrap();
    assert_eq!(db.page_count, 3);
    assert_eq!(db.file.len(), 3 * 4096);
    // the header keeps up with the page count
    assert_eq!(&db.file[2..6], &[0, 0, 0, 3]);
    // each table got its own, distinct root page
    let (root1, _) = db.describe_table("table1".to_string()).unwrap();
    let (root2, _) = db.describe_table("table2".to_string()).unwrap();
    assert_eq!(root1, 2);
    assert_eq!(root2, 3);
}
