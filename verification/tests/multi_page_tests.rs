//! Filling a tiny page until it reports `PageFull`.

use basic_db::catalog::ColumnType;
use basic_db::database::{create_new_database, Database};
use basic_db::record::Column;
use basic_db::DbError;

fn setup_database() -> Database {
    let page_size = 170;
    let database = create_new_database(page_size);

    assert_eq!(database.page_size, page_size);
    assert_eq!(database.page_count, 1);
    assert_eq!(database.file.len(), 170);
    assert_eq!(database.file[0] as u16 * 256 + database.file[1] as u16, 170);
    assert_eq!(&database.file[2..6], &[0, 0, 0, 1]);

    database
}

#[test]
fn multiple_pages() {
    let mut database = setup_database();

    let table_name = "large_table".to_string();

    let columns = vec![
        ("count".to_string(), ColumnType::Integer),
        ("name".to_string(), ColumnType::Text),
    ];

    database.create_table(table_name.clone(), columns).unwrap();

    let name = "row";
    let mut inserted: i128 = 0;
    let mut full_at: Option<i128> = None;

    for count in 1..256 {
        let mut row = Vec::new();
        row.push(("count".to_string(), count.to_string()));
        row.push(("name".to_string(), name.to_string()));

        match database.insert_record(table_name.clone(), row) {
            Ok(()) => {
                assert!(full_at.is_none());
                inserted = count;
            }
            Err(e) => {
                // the tiny leaf eventually fills; every later insert fails
                // the same way
                assert_eq!(e, DbError::PageFull);
                if full_at.is_none() {
                    full_at = Some(count);
                }
            }
        }
    }

    // the page really did fill before the loop ran out
    let first_full = full_at.expect("the tiny page never filled");
    assert_eq!(first_full, inserted + 1);
    assert!(inserted >= 1);

    // all rows inserted before the page filled are readable, in order
    let rows = database.select_all_records(table_name).unwrap();
    assert_eq!(rows.len() as i128, inserted);
    for (i, row) in rows.iter().enumerate() {
        assert_eq!(
            *row,
            vec![
                Column::Integer(i as i128 + 1),
                Column::Text(name.to_string())
            ]
        );
    }
}
