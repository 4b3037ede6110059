//! End-to-end checks of the database engine on an in-memory image.

use basic_db::catalog::ColumnType;
use basic_db::database::{load, Database};
use basic_db::record::Column;

fn simple_record(name: &str, count: i32) -> Vec<(String, String)> {
    let mut row = Vec::new();
    row.push(("count".to_string(), count.to_string()));
    row.push(("name".to_string(), name.to_string()));
    row
}

fn create_basic_table(database: &mut Database) {
    let columns = vec![
        ("count".to_string(), ColumnType::Integer),
        ("name".to_string(), ColumnType::Text),
    ];

    database
        .create_table("table1".to_string(), columns.clone())
        .unwrap();
}

fn test_new_database() -> Database {
    let database = load(None, 4096).expect("Error creating a new database file");

    assert_eq!(4096, database.file.len());
    assert_eq!(database.page_size, 4096);
    assert_eq!(database.page_count, 1);

    // bytes 0..6 of the header decode to the page size and a count of one
    assert_eq!(database.file[0], 0x10);
    assert_eq!(database.file[1], 0x00);
    assert_eq!(&database.file[2..6], &[0, 0, 0, 1]);
    // page 1 is a table leaf
    assert_eq!(database.file[100], 13);

    database
}

fn test_create_table(database: &mut Database, table_number: usize) {
    let mut table_name = "table".to_string();
    table_name.push_str(&table_number.to_string());

    let columns = vec![
        ("count".to_string(), ColumnType::Integer),
        ("name".to_string(), ColumnType::Text),
    ];

    database
        .create_table(table_name.clone(), columns.clone())
        .unwrap();

    let (page_number, columns_out) = database.describe_table(table_name).unwrap();
    assert_eq!(columns, columns_out);
    assert_eq!(page_number as usize, table_number + 1);

    assert_eq!(table_number as u32 + 1, database.page_count);
    assert_eq!((table_number + 1) * 4096, database.file.len());
}

fn test_insert_record(database: &mut Database, table_number: usize) {
    let mut table_name = "table".to_string();
    table_name.push_str(&table_number.to_string());

    let name = "fred".to_string();
    let mut row = Vec::new();
    row.push(("count".to_string(), table_number.to_string()));
    row.push(("name".to_string(), name.clone()));

    database
        .insert_record(table_name.clone(), row)
        .expect("failed to insert record");

    let output = database.select_all_records(table_name.clone()).unwrap();
    let expected = vec![vec![
        Column::Integer(table_number as i128),
        Column::Text(name.clone()),
    ]];
    assert_eq!(output, expected);

    // select count where name
    let record_filter = |row: &Vec<Column>| match &row[1] {
        Column::Text(val) => *val == name,
        _ => false,
    };

    let column_filter = |mut row: Vec<Column>| row.drain(..1).collect();

    let output = database
        .select_records(table_name, record_filter, column_filter)
        .unwrap();

    let count_out = output.first().unwrap().first().unwrap();
    assert_eq!(*count_out, Column::Integer(table_number as i128));
}

#[test]
fn basic_database_tests() {
    let mut database = test_new_database();

    test_create_table(&mut database, 1);
    test_create_table(&mut database, 2);

    test_insert_record(&mut database, 1);
    test_insert_record(&mut database, 2);
}

#[test]
fn single_record() {
    let mut database = load(None, 4096).expect("Error creating a new database file");
    create_basic_table(&mut database);
    test_insert_record(&mut database, 1);
}

#[test]
fn multiple_records() {
    let mut database = load(None, 4096).expect("Error creating a new database file");
    create_basic_table(&mut database);

    let row_hashs = vec![simple_record("fred", 1), simple_record("george", 2)];

    database
        .insert_records("table1".to_string(), row_hashs)
        .unwrap();

    let output = database.select_all_records("table1".to_string()).unwrap();

    let expected = vec![
        vec![Column::Integer(1), Column::Text("fred".to_string())],
        vec![Column::Integer(2), Column::Text("george".to_string())],
    ];
    assert_eq!(output, expected);
}

#[test]
fn filter_projection() {
    let mut database = load(None, 4096).expect("Error creating a new database file");
    create_basic_table(&mut database);

    let row_hashs = vec![simple_record("fred", 1), simple_record("george", 2)];
    database
        .insert_records("table1".to_string(), row_hashs)
        .unwrap();

    let record_filter = |row: &Vec<Column>| row[1] == Column::Text("fred".to_string());
    let column_filter = |mut row: Vec<Column>| {
        row.truncate(1);
        row
    };
    let output = database
        .select_records("table1".to_string(), record_filter, column_filter)
        .unwrap();
    assert_eq!(output, vec![vec![Column::Integer(1)]]);
}

#[test]
fn batch_stops_at_first_bad_row() {
    let mut database = load(None, 4096).unwrap();
    create_basic_table(&mut database);

    let mut bad = Vec::new();
    bad.push(("count".to_string(), "not a number".to_string()));
    let rows = vec![simple_record("fred", 1), bad, simple_record("george", 3)];
    assert_eq!(
        database
            .insert_records("table1".to_string(), rows)
            .unwrap_err(),
        basic_db::DbError::BadValue
    );

    // the row before the failing one remains inserted and committed
    let output = database.select_all_records("table1".to_string()).unwrap();
    assert_eq!(
        output,
        vec![vec![Column::Integer(1), Column::Text("fred".to_string())]]
    );
}

#[test]
fn reopen_keeps_tables() {
    let mut database = load(None, 4096).unwrap();
    create_basic_table(&mut database);
    database
        .insert_record("table1".to_string(), simple_record("fred", 1))
        .unwrap();

    // the committed image can be opened again and still resolves the table
    let image = database.file.clone();
    let reopened = load(Some(image), 4096).unwrap();
    assert_eq!(reopened.page_count, 2);
    assert_eq!(reopened.page_size, 4096);
    let (root, _) = reopened.describe_table("table1".to_string()).unwrap();
    assert_eq!(root, 2);
    let rows = reopened.select_all_records("table1".to_string()).unwrap();
    assert_eq!(
        rows,
        vec![vec![Column::Integer(1), Column::Text("fred".to_string())]]
    );
}

#[test]
fn missing_and_ambiguous_tables() {
    let mut database = load(None, 4096).unwrap();
    assert_eq!(
        database.describe_table("nope".to_string()).unwrap_err(),
        basic_db::DbError::NoSuchTable
    );
    create_basic_table(&mut database);
    // a second catalog row with the same name makes the lookup ambiguous
    let columns = vec![("x".to_string(), ColumnType::Integer)];
    database
        .create_table("table1".to_string(), columns)
        .unwrap();
    assert_eq!(
        database.describe_table("table1".to_string()).unwrap_err(),
        basic_db::DbError::AmbiguousTable
    );
}

#[test]
fn bad_values_are_rejected() {
    let mut database = load(None, 4096).unwrap();
    create_basic_table(&mut database);
    let mut row = Vec::new();
    row.push(("count".to_string(), "abc".to_string()));
    assert_eq!(
        database
            .insert_record("table1".to_string(), row)
            .unwrap_err(),
        basic_db::DbError::BadValue
    );
    // a value beyond the 8-byte signed range is rejected at encoding
    let mut row2 = Vec::new();
    row2.push(("count".to_string(), "9223372036854775808".to_string()));
    assert_eq!(
        database
            .insert_record("table1".to_string(), row2)
            .unwrap_err(),
        basic_db::DbError::IntegerOverflow
    );
    // a missing column becomes Null, which is accepted
    let row3: Vec<(String, String)> = Vec::new();
    database.insert_record("table1".to_string(), row3).unwrap();
    let rows = database.select_all_records("table1".to_string()).unwrap();
    assert_eq!(rows, vec![vec![Column::Null, Column::Null]]);
}

#[test]
fn corrupt_images_are_rejected() {
    // too short
    assert_eq!(
        load(Some(vec![0u8; 50]), 4096).unwrap_err(),
        basic_db::DbError::Corruption
    );
    // header length that does not match the image
    let good = load(None, 4096).unwrap();
    let mut bytes = good.file.clone();
    bytes.push(0);
    assert_eq!(
        load(Some(bytes), 4096).unwrap_err(),
        basic_db::DbError::Corruption
    );
    // a reserved page type on page 1 is unsupported
    let mut bytes2 = good.file.clone();
    bytes2[100] = 5;
    let db2 = load(Some(bytes2), 4096).unwrap();
    assert_eq!(
        db2.describe_table("t".to_string()).unwrap_err(),
        basic_db::DbError::Unsupported
    );
}
