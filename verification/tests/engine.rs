use pagedb::{ColumnDef, Condition, CreateTableError, Database};

fn column(name: &str, column_type: u8, size: u16) -> ColumnDef {
    ColumnDef { name: name.to_string(), column_type, size }
}

fn equals(range: std::ops::Range<usize>, data: &[u8]) -> Condition {
    Condition { range, data: data.to_vec() }
}

fn fresh() -> Database {
    Database::open(Database::create_database()).unwrap()
}

fn live(rows: &[Vec<u8>]) -> Vec<Vec<u8>> {
    rows.iter().filter(|r| r.iter().any(|b| *b != 0)).cloned().collect()
}

fn pages_in_use(db: &Database, upto: i32) -> Vec<i32> {
    (0..upto).filter(|p| db.page_in_use(*p)).collect()
}

fn pair_table() -> Database {
    let mut db = fresh();
    db.create_table("pairs", &[column("k", 1, 2), column("v", 1, 2)]).unwrap();
    for row in [[1u8, 1, 0, 10], [1, 2, 0, 20], [2, 1, 0, 30], [1, 1, 0, 40]] {
        db.insert("pairs", &row).unwrap();
    }
    db
}

#[test]
fn schema_survives_close_and_open() {
    let mut db = fresh();
    db.create_table("a", &[column("x", 1, 4), column("y", 2, 8)]).unwrap();
    db.create_table("b", &[column("only", 3, 4096)]).unwrap();
    db.create_table("c", &[column("p", 0, 1), column("q", 0, 0), column("r", 255, 65)]).unwrap();
    db.insert("a", &[7u8; 12]).unwrap();
    let names: Vec<String> = db.tables().iter().map(|t| t.name.clone()).collect();
    let widths: Vec<u16> = db.tables().iter().map(|t| t.row_len).collect();
    assert_eq!(names, vec!["a", "b", "c"]);
    assert_eq!(widths, vec![12, 4096, 66]);
    let bytes = db.close();
    let again = Database::open(bytes.clone()).unwrap();
    assert_eq!(again.image(), &bytes);
    assert_eq!(again.tables().len(), 3);
    for (t, (name, width)) in again.tables().iter().zip(names.iter().zip(widths.iter())) {
        assert_eq!(&t.name, name);
        assert_eq!(t.row_len, *width);
    }
    let cols = again.get_table_def("c").unwrap();
    let got: Vec<(String, u8, u16)> =
        cols.into_iter().map(|c| (c.name, c.column_type, c.size)).collect();
    assert_eq!(
        got,
        vec![("p".to_string(), 0, 1), ("q".to_string(), 0, 0), ("r".to_string(), 255, 65)]
    );
    assert_eq!(again.get_table_def("a").unwrap().len(), 2);
    assert_eq!(pages_in_use(&again, 20), vec![0, 1, 2, 3, 4, 5, 6, 7]);
    assert_eq!(again.tables()[0].table_offsets, vec![5]);
    assert_eq!(live(&again.select("a", &[]).unwrap()), vec![vec![7u8; 12]]);
}

#[test]
fn inserted_rows_come_back_from_select() {
    let mut db = fresh();
    db.create_table("t", &[column("a", 1, 1000)]).unwrap();
    let rows: Vec<Vec<u8>> = (1..=10u8).map(|i| vec![i; 1000]).collect();
    for row in &rows {
        db.insert("t", row).unwrap();
    }
    let got = db.select("t", &[]).unwrap();
    // four rows fit a page: three pages, two slots left empty
    assert_eq!(got.len(), 12);
    assert_eq!(live(&got), rows);
    assert_eq!(&got[..10], &rows[..]);
    assert_eq!(got[10], vec![0u8; 1000]);
    assert_eq!(db.tables()[0].table_offsets, vec![1, 2, 3]);
    assert_eq!(db.image().len(), 6 * 4096);
}

#[test]
fn page_holds_as_many_rows_as_fit() {
    let mut db = fresh();
    db.create_table("t", &[column("a", 1, 4096)]).unwrap();
    db.create_table("u", &[column("a", 1, 2049)]).unwrap();
    db.create_table("v", &[column("a", 1, 3)]).unwrap();
    db.insert("t", &[1u8; 4096]).unwrap();
    db.insert("u", &[1u8; 2049]).unwrap();
    db.insert("v", &[1u8; 3]).unwrap();
    assert_eq!(db.select("t", &[]).unwrap().len(), 1);
    assert_eq!(db.select("u", &[]).unwrap().len(), 1);
    assert_eq!(db.select("v", &[]).unwrap().len(), 1365);
}

#[test]
fn select_gives_the_rows_that_meet_every_condition() {
    let db = pair_table();
    let hit = db.select("pairs", &[equals(0..2, &[1, 1])]).unwrap();
    assert_eq!(hit, vec![vec![1, 1, 0, 10], vec![1, 1, 0, 40]]);
    let hit = db.select("pairs", &[equals(0..1, &[1]), equals(3..4, &[20])]).unwrap();
    assert_eq!(hit, vec![vec![1, 2, 0, 20]]);
    let hit = db.select("pairs", &[equals(0..2, &[1, 1]), equals(2..4, &[0, 30])]).unwrap();
    assert!(hit.is_empty());
    let hit = db.select("pairs", &[equals(1..1, &[])]).unwrap();
    assert_eq!(hit.len(), 1024);
    // an empty slot meets a condition on zero bytes
    let hit = db.select("pairs", &[equals(2..3, &[0])]).unwrap();
    assert_eq!(hit.len(), 1024);
    let hit = db.select("pairs", &[equals(0..4, &[0, 0, 0, 0])]).unwrap();
    assert_eq!(hit.len(), 1020);
    // data of another length than the range meets nothing
    assert!(db.select("pairs", &[equals(0..2, &[1])]).unwrap().is_empty());
    assert!(db.select("pairs", &[equals(0..1, &[1, 1])]).unwrap().is_empty());
}

#[test]
fn conditions_out_of_the_row_are_refused() {
    let mut db = pair_table();
    let before = db.image().clone();
    let bad = [equals(3..5, &[0, 0])];
    let backwards = [Condition { range: 3..2, data: vec![] }];
    assert_eq!(db.select("pairs", &bad), Err(CreateTableError::InvalidArgument));
    assert_eq!(db.select("pairs", &backwards), Err(CreateTableError::InvalidArgument));
    assert_eq!(db.update("pairs", &bad, &[]), Err(CreateTableError::InvalidArgument));
    assert_eq!(db.update("pairs", &[], &bad), Err(CreateTableError::InvalidArgument));
    // a field that would run past the row
    assert_eq!(
        db.update("pairs", &[], &[equals(3..4, &[1, 2])]),
        Err(CreateTableError::InvalidArgument)
    );
    assert_eq!(db.delete("pairs", &bad), Err(CreateTableError::InvalidArgument));
    assert_eq!(db.image(), &before);
    assert!(db.select("pairs", &[equals(4..4, &[])]).is_ok());
}

#[test]
fn unknown_table_is_not_found() {
    let mut db = pair_table();
    let before = db.image().clone();
    assert_eq!(db.select("nope", &[]), Err(CreateTableError::TableNotFound));
    assert_eq!(db.insert("nope", &[1, 2, 3, 4]), Err(CreateTableError::TableNotFound));
    assert_eq!(db.update("nope", &[], &[]), Err(CreateTableError::TableNotFound));
    assert_eq!(db.delete("nope", &[]), Err(CreateTableError::TableNotFound));
    assert_eq!(db.drop("nope"), Err(CreateTableError::TableNotFound));
    assert!(matches!(db.get_table_def("nope"), Err(CreateTableError::TableNotFound)));
    assert_eq!(db.image(), &before);
}

#[test]
fn update_counts_the_rows_that_matched_before() {
    let mut db = pair_table();
    let cond = [equals(0..2, &[1, 1])];
    let matched = db.select("pairs", &cond).unwrap().len();
    let n = db.update("pairs", &cond, &[equals(0..2, &[5, 5])]).unwrap();
    assert_eq!(n, matched);
    assert_eq!(n, 2);
    assert!(db.select("pairs", &cond).unwrap().is_empty());
    assert_eq!(
        live(&db.select("pairs", &[]).unwrap()),
        vec![vec![5, 5, 0, 10], vec![1, 2, 0, 20], vec![2, 1, 0, 30], vec![5, 5, 0, 40]]
    );
    // no conditions: every slot of the page is a row
    assert_eq!(db.update("pairs", &[], &[]).unwrap(), 1024);
    assert_eq!(db.update("pairs", &[equals(0..1, &[9])], &[equals(0..1, &[1])]).unwrap(), 0);
}

#[test]
fn update_writes_each_field_at_the_start_of_its_range() {
    let mut db = pair_table();
    let n = db
        .update(
            "pairs",
            &[equals(3..4, &[20])],
            &[equals(0..1, &[7]), equals(2..4, &[8, 9]), equals(3..4, &[6])],
        )
        .unwrap();
    assert_eq!(n, 1);
    assert_eq!(db.select("pairs", &[equals(0..1, &[7])]).unwrap(), vec![vec![7, 2, 8, 6]]);
    // the bytes are written whatever the end of the range
    let n = db.update("pairs", &[equals(0..1, &[7])], &[equals(1..1, &[4, 4, 4])]).unwrap();
    assert_eq!(n, 1);
    assert_eq!(db.select("pairs", &[equals(0..1, &[7])]).unwrap(), vec![vec![7, 4, 4, 4]]);
    // other rows and the catalog are as they were
    assert_eq!(db.select("pairs", &[equals(0..2, &[1, 1])]).unwrap().len(), 2);
    assert_eq!(pages_in_use(&db, 10), vec![0, 1, 2, 3]);
}

#[test]
fn update_can_fill_empty_slots() {
    let mut db = pair_table();
    let n = db.update("pairs", &[equals(0..4, &[0, 0, 0, 0])], &[equals(0..1, &[3])]).unwrap();
    assert_eq!(n, 1020);
    assert_eq!(live(&db.select("pairs", &[]).unwrap()).len(), 1024);
    // the page is full now: the next row goes to a new page
    db.insert("pairs", &[4, 4, 4, 4]).unwrap();
    assert_eq!(db.tables()[0].table_offsets, vec![1, 2]);
}

#[test]
fn delete_zeroes_the_rows_and_keeps_the_page() {
    let mut db = pair_table();
    let cond = [equals(0..2, &[1, 1])];
    assert_eq!(db.delete("pairs", &cond), Ok(2));
    assert!(db.select("pairs", &cond).unwrap().is_empty());
    let rows = db.select("pairs", &[]).unwrap();
    assert_eq!(rows.len(), 1024);
    assert_eq!(rows[0], vec![0, 0, 0, 0]);
    assert_eq!(rows[1], vec![1, 2, 0, 20]);
    assert_eq!(rows[2], vec![2, 1, 0, 30]);
    assert_eq!(rows[3], vec![0, 0, 0, 0]);
    assert_eq!(pages_in_use(&db, 10), vec![0, 1, 2, 3]);
    assert_eq!(db.delete("pairs", &cond), Ok(0));
    // the first empty slot is filled first
    db.insert("pairs", &[9, 9, 9, 9]).unwrap();
    assert_eq!(db.select("pairs", &[]).unwrap()[0], vec![9, 9, 9, 9]);
}

#[test]
fn delete_of_every_row_releases_the_data_pages() {
    let mut db = fresh();
    db.create_table("t", &[column("a", 1, 2000)]).unwrap();
    db.create_table("other", &[column("a", 1, 4)]).unwrap();
    for i in 1..=5u8 {
        db.insert("t", &vec![i; 2000]).unwrap();
    }
    db.insert("other", &[1, 2, 3, 4]).unwrap();
    assert_eq!(db.tables()[0].table_offsets, vec![3, 4, 5]);
    assert_eq!(pages_in_use(&db, 20), vec![0, 1, 2, 3, 4, 5, 6, 7, 8]);
    let size = db.image().len();
    // no conditions: every slot counts, two to a page
    assert_eq!(db.delete("t", &[]), Ok(6));
    assert_eq!(pages_in_use(&db, 20), vec![0, 1, 2, 3, 4, 8]);
    assert!(db.tables()[0].table_offsets.is_empty());
    assert!(db.select("t", &[]).unwrap().is_empty());
    assert_eq!(db.image().len(), size);
    assert!(db.image()[2 * 4096..3 * 4096].iter().all(|b| *b == 0));
    // the released pages keep their bytes
    assert_eq!(&db.image()[5 * 4096..5 * 4096 + 2000], &[1u8; 2000][..]);
    assert_eq!(live(&db.select("other", &[]).unwrap()), vec![vec![1, 2, 3, 4]]);
    // a released page is taken again, and zeroed behind the row
    db.insert("t", &vec![9u8; 2000]).unwrap();
    assert_eq!(db.tables()[0].table_offsets, vec![3]);
    assert!(db.image()[5 * 4096 + 2000..6 * 4096].iter().all(|b| *b == 0));
    let again = Database::open(db.image().clone()).unwrap();
    assert_eq!(pages_in_use(&again, 20), vec![0, 1, 2, 3, 4, 5, 8]);
}

#[test]
fn delete_releases_only_the_pages_left_without_a_row() {
    let mut db = fresh();
    db.create_table("t", &[column("a", 1, 2000)]).unwrap();
    for i in [1u8, 1, 2, 1, 1] {
        db.insert("t", &vec![i; 2000]).unwrap();
    }
    assert_eq!(db.tables()[0].table_offsets, vec![1, 2, 3]);
    assert_eq!(db.delete("t", &[equals(0..1, &[1])]), Ok(4));
    // the first and the last page are gone; the second keeps the row of twos
    assert_eq!(db.tables()[0].table_offsets, vec![2]);
    assert_eq!(pages_in_use(&db, 10), vec![0, 1, 2, 4]);
    let rows = db.select("t", &[]).unwrap();
    assert_eq!(rows, vec![vec![2u8; 2000], vec![0u8; 2000]]);
    // the first record is free: a new page goes there, before the page kept
    db.insert("t", &vec![4u8; 2000]).unwrap();
    assert_eq!(db.tables()[0].table_offsets, vec![1, 2]);
    assert_eq!(pages_in_use(&db, 10), vec![0, 1, 2, 3, 4]);
    db.insert("t", &vec![3u8; 2000]).unwrap();
    db.insert("t", &vec![5u8; 2000]).unwrap();
    assert_eq!(db.tables()[0].table_offsets, vec![1, 2]);
    assert_eq!(
        db.select("t", &[]).unwrap(),
        vec![vec![4u8; 2000], vec![3u8; 2000], vec![2u8; 2000], vec![5u8; 2000]]
    );
}

#[test]
fn drop_releases_every_page_of_the_table() {
    let mut db = fresh();
    db.create_table("keep", &[column("a", 1, 4)]).unwrap();
    db.create_table("gone", &[column("a", 1, 3000)]).unwrap();
    db.insert("gone", &[1u8; 3000]).unwrap();
    db.insert("keep", &[1, 2, 3, 4]).unwrap();
    db.insert("gone", &[2u8; 3000]).unwrap();
    assert_eq!(pages_in_use(&db, 20), vec![0, 1, 2, 3, 4, 5, 6, 7]);
    let size = db.image().len();
    assert_eq!(db.drop("gone"), Ok(()));
    assert_eq!(pages_in_use(&db, 20), vec![0, 1, 2, 6]);
    assert_eq!(db.tables().len(), 1);
    assert_eq!(db.select("gone", &[]), Err(CreateTableError::TableNotFound));
    assert_eq!(db.drop("gone"), Err(CreateTableError::TableNotFound));
    assert!(db.image()[32..64].iter().all(|b| *b == 0));
    assert_eq!(db.image().len(), size);
    // the pages are left as they are
    assert_eq!(db.image()[3 * 4096], 1);
    assert_eq!(&db.image()[5 * 4096..5 * 4096 + 3000], &[1u8; 3000][..]);
    assert_eq!(live(&db.select("keep", &[]).unwrap()), vec![vec![1, 2, 3, 4]]);
    // the slot and the pages are taken again
    db.create_table("next", &[column("b", 1, 8)]).unwrap();
    let t = &db.tables()[1];
    assert_eq!((t.header_record_offset, t.col_def_offset, t.meta_offset), (1, 3, 4));
    assert!(db.select("next", &[]).unwrap().is_empty());
    let again = Database::open(db.close()).unwrap();
    assert_eq!(pages_in_use(&again, 20), vec![0, 1, 2, 3, 4, 6]);
}

#[test]
fn create_table_checks_its_arguments() {
    let mut db = fresh();
    let cols = [column("a", 1, 4)];
    let before = db.image().clone();
    assert_eq!(db.create_table("", &cols), Err(CreateTableError::InvalidArgument));
    assert_eq!(db.create_table(&"n".repeat(24), &cols), Err(CreateTableError::InvalidArgument));
    // the length is counted in bytes
    assert_eq!(db.create_table(&"é".repeat(12), &cols), Err(CreateTableError::InvalidArgument));
    let many: Vec<ColumnDef> = (0..129).map(|_| column("c", 1, 1)).collect();
    assert_eq!(db.create_table("t", &many), Err(CreateTableError::TooManyColumns));
    assert_eq!(
        db.create_table("t", &[column(&"c".repeat(29), 1, 4)]),
        Err(CreateTableError::ColumnNameTooLong)
    );
    assert_eq!(db.create_table("t", &[column("", 1, 4)]), Err(CreateTableError::InvalidArgument));
    assert_eq!(
        db.create_table("t", &[column("", 1, 4), column(&"c".repeat(29), 1, 4)]),
        Err(CreateTableError::ColumnNameTooLong)
    );
    assert_eq!(
        db.create_table("t", &[column("a", 1, 4000), column("b", 1, 97)]),
        Err(CreateTableError::ColumnTooBig)
    );
    assert_eq!(
        db.create_table("t", &[column("a", 1, 65535), column("b", 1, 65535)]),
        Err(CreateTableError::ColumnTooBig)
    );
    assert_eq!(db.create_table("t", &[]), Err(CreateTableError::InvalidArgument));
    assert_eq!(db.create_table("t", &[column("a", 1, 0)]), Err(CreateTableError::InvalidArgument));
    assert_eq!(db.image(), &before);
    assert!(db.tables().is_empty());
    // the limits themselves are fine
    let most: Vec<ColumnDef> = (0..128).map(|_| column(&"c".repeat(28), 1, 32)).collect();
    assert_eq!(db.create_table(&"n".repeat(23), &most), Ok(()));
    assert_eq!(db.tables()[0].row_len, 4096);
    assert_eq!(db.get_table_def(&"n".repeat(23)).unwrap().len(), 128);
    let before = db.image().clone();
    assert_eq!(db.create_table(&"n".repeat(23), &cols), Err(CreateTableError::TableExists));
    // an existing name is found before the columns are looked at
    assert_eq!(db.create_table(&"n".repeat(23), &[]), Err(CreateTableError::TableExists));
    assert_eq!(db.create_table(&"n".repeat(23), &many), Err(CreateTableError::TooManyColumns));
    assert_eq!(db.image(), &before);
}

#[test]
fn meta_page_follows_the_definition_page() {
    let mut db = fresh();
    db.create_table("a", &[column("a", 1, 4)]).unwrap();
    db.create_table("b", &[column("a", 1, 4)]).unwrap();
    db.create_table("c", &[column("a", 1, 4)]).unwrap();
    db.insert("c", &[1, 1, 1, 1]).unwrap();
    db.drop("b").unwrap();
    db.drop("a").unwrap();
    // free pages: 1 to 4; the definition page gets the first, the meta page the next
    db.create_table("d", &[column("a", 1, 4)]).unwrap();
    let t = &db.tables()[1];
    assert_eq!((t.header_record_offset, t.col_def_offset, t.meta_offset), (0, 1, 2));
    db.insert("d", &[2, 2, 2, 2]).unwrap();
    assert_eq!(db.tables()[1].table_offsets, vec![1]);
    db.create_table("e", &[column("a", 1, 4)]).unwrap();
    let t = &db.tables()[2];
    assert_eq!((t.header_record_offset, t.col_def_offset, t.meta_offset), (1, 4, 8));
}

#[test]
fn table_is_full_after_128_pages() {
    let mut db = fresh();
    db.create_table("big", &[column("a", 1, 4096)]).unwrap();
    for i in 0..128u32 {
        let mut row = vec![1u8; 4096];
        row[..4].copy_from_slice(&i.to_be_bytes());
        assert_eq!(db.insert("big", &row), Ok(()), "row {}", i);
    }
    let before = db.image().clone();
    assert_eq!(db.insert("big", &[1u8; 4096]), Err(CreateTableError::StorageFull));
    assert_eq!(db.image(), &before);
    assert_eq!(db.image().len(), 131 * 4096);
    assert_eq!(db.select("big", &[]).unwrap().len(), 128);
    assert_eq!(db.select("big", &[equals(0..4, &[0, 0, 0, 77])]).unwrap().len(), 1);
    assert_eq!(db.delete("big", &[equals(0..4, &[0, 0, 0, 77])]), Ok(1));
    assert!(!db.page_in_use(80));
    assert_eq!(db.insert("big", &[3u8; 4096]), Ok(()));
    assert!(db.page_in_use(80));
    assert_eq!(db.select("big", &[]).unwrap()[77], vec![3u8; 4096]);
}

#[test]
fn row_of_zeros_is_an_empty_slot() {
    let mut db = fresh();
    db.create_table("t", &[column("a", 1, 4)]).unwrap();
    db.insert("t", &[0, 0, 0, 0]).unwrap();
    db.insert("t", &[0, 0, 0, 0]).unwrap();
    assert_eq!(db.tables()[0].table_offsets, vec![1]);
    db.insert("t", &[1, 0, 0, 0]).unwrap();
    // the row took the slot that the rows of zeros had left empty
    assert_eq!(db.select("t", &[]).unwrap()[0], vec![1, 0, 0, 0]);
    assert_eq!(live(&db.select("t", &[]).unwrap()).len(), 1);
}

#[test]
fn a_failed_operation_changes_nothing() {
    let mut db = pair_table();
    let before = db.image().clone();
    let tables = db.tables().len();
    assert!(db.insert("pairs", &[]).is_err());
    assert!(db.create_table("pairs", &[column("k", 1, 2)]).is_err());
    assert!(db.create_table("x", &[column("k", 1, 5000)]).is_err());
    assert!(db.update("pairs", &[equals(0..9, &[])], &[]).is_err());
    assert!(db.delete("pairs", &[equals(0..9, &[])]).is_err());
    assert!(db.drop("x").is_err());
    assert_eq!(db.image(), &before);
    assert_eq!(db.tables().len(), tables);
    assert_eq!(pages_in_use(&db, 10), vec![0, 1, 2, 3]);
}
