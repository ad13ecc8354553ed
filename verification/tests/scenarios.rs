use pagedb::{ColumnDef, Condition, CreateTableError, Database};

fn column(name: &str, column_type: u8, size: u16) -> ColumnDef {
    ColumnDef { name: name.to_string(), column_type, size }
}

fn equals(range: std::ops::Range<usize>, data: &[u8]) -> Condition {
    Condition { range, data: data.to_vec() }
}

fn fresh() -> Database {
    Database::open(Database::create_database()).unwrap()
}

fn with_row() -> Database {
    let mut db = fresh();
    db.create_table("t", &[column("a", 1, 4)]).unwrap();
    db.insert("t", &[0, 0, 0, 1]).unwrap();
    db
}

fn non_empty(rows: &[Vec<u8>]) -> Vec<Vec<u8>> {
    rows.iter().filter(|r| r.iter().any(|b| *b != 0)).cloned().collect()
}

#[test]
fn new_file_is_one_page_of_zeros() {
    let bytes = Database::create_database();
    assert_eq!(bytes, vec![0u8; 4096]);
    let db = Database::open(bytes).unwrap();
    assert!(db.tables().is_empty());
    assert!(db.page_in_use(0));
    assert!(!db.page_in_use(1));
}

#[test]
fn insert_then_select_gives_the_row() {
    let db = with_row();
    let rows = db.select("t", &[]).unwrap();
    // every slot of the one data page is a row; one of them holds the data
    assert_eq!(rows.len(), 1024);
    assert_eq!(rows[0], vec![0, 0, 0, 1]);
    assert_eq!(non_empty(&rows), vec![vec![0, 0, 0, 1]]);
    assert_eq!(rows.iter().filter(|r| **r == vec![0, 0, 0, 1]).count(), 1);
    let hit = db.select("t", &[equals(0..4, &[0, 0, 0, 1])]).unwrap();
    assert_eq!(hit, vec![vec![0, 0, 0, 1]]);
}

#[test]
fn update_rewrites_the_matching_row() {
    let mut db = with_row();
    let n = db
        .update("t", &[equals(0..4, &[0, 0, 0, 1])], &[equals(0..4, &[0, 0, 0, 2])])
        .unwrap();
    assert_eq!(n, 1);
    let rows = db.select("t", &[]).unwrap();
    assert_eq!(rows.len(), 1024);
    assert_eq!(non_empty(&rows), vec![vec![0, 0, 0, 2]]);
    assert_eq!(rows[0], vec![0, 0, 0, 2]);
}

#[test]
fn delete_releases_the_emptied_page() {
    let mut db = with_row();
    db.update("t", &[equals(0..4, &[0, 0, 0, 1])], &[equals(0..4, &[0, 0, 0, 2])]).unwrap();
    assert!(db.page_in_use(3));
    let n = db.delete("t", &[equals(0..4, &[0, 0, 0, 2])]).unwrap();
    assert_eq!(n, 1);
    assert_eq!(db.select("t", &[]).unwrap(), Vec::<Vec<u8>>::new());
    let t = &db.tables()[0];
    assert_eq!((t.col_def_offset, t.meta_offset), (1, 2));
    for page in 0..64 {
        assert_eq!(db.page_in_use(page), page <= 2, "page {}", page);
    }
}

#[test]
fn header_holds_128_tables() {
    let mut db = fresh();
    for i in 0..128 {
        let name = format!("t{}", i);
        assert_eq!(db.create_table(&name, &[column("a", 1, 4)]), Ok(()));
    }
    assert_eq!(db.tables().len(), 128);
    assert_eq!(
        db.create_table("one_more", &[column("a", 1, 4)]),
        Err(CreateTableError::HeaderTableFull)
    );
}

#[test]
fn column_wider_than_a_page_is_refused() {
    let mut db = with_row();
    let before = db.image().clone();
    assert_eq!(
        db.create_table("t2", &[column("x", 1, 5000)]),
        Err(CreateTableError::ColumnTooBig)
    );
    assert_eq!(db.image(), &before);
}

#[test]
fn row_of_wrong_length_is_refused() {
    let mut db = with_row();
    let before = db.image().clone();
    assert_eq!(db.insert("t", &[1, 2, 3]), Err(CreateTableError::InvalidArgument));
    assert_eq!(db.insert("t", &[1, 2, 3, 4, 5]), Err(CreateTableError::InvalidArgument));
    assert_eq!(db.image(), &before);
}
