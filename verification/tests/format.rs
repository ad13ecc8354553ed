use pagedb::catalog::{
    emit_def_record, emit_header_name, emit_header_pages, parse_def_record, parse_header_record,
    parse_meta_page, parse_meta_record, parse_row_len, same_text,
};
use pagedb::{check_table_exists, ColumnDef, Condition, CreateTableError, Database, HeaderMeta};

fn column(name: &str, column_type: u8, size: u16) -> ColumnDef {
    ColumnDef { name: name.to_string(), column_type, size }
}

fn one_table_file(name: &[u8]) -> Vec<u8> {
    let mut bytes = vec![0u8; 3 * 4096];
    bytes[0] = name.len() as u8;
    bytes[1..1 + name.len()].copy_from_slice(name);
    bytes[24..28].copy_from_slice(&1i32.to_be_bytes());
    bytes[28..32].copy_from_slice(&2i32.to_be_bytes());
    // the definition page: one column "a" of type 1 and 4 bytes
    bytes[4096..4096 + 5].copy_from_slice(&[1, b'a', 1, 0, 4]);
    bytes
}

#[test]
fn create_table_writes_the_three_directories() {
    let mut db = Database::open(Database::create_database()).unwrap();
    db.create_table("tab", &[column("id", 7, 4), column("name", 9, 300)]).unwrap();
    let bytes = db.image();
    assert_eq!(bytes.len(), 3 * 4096);
    let mut header = vec![0u8; 32];
    header[0] = 3;
    header[1..4].copy_from_slice(b"tab");
    header[27] = 1;
    header[31] = 2;
    assert_eq!(&bytes[..32], &header[..]);
    assert!(bytes[32..4096].iter().all(|b| *b == 0));
    let mut first = vec![0u8; 32];
    first[..6].copy_from_slice(&[2, b'i', b'd', 7, 0, 4]);
    let mut second = vec![0u8; 32];
    second[..8].copy_from_slice(&[4, b'n', b'a', b'm', b'e', 9, 1, 44]);
    assert_eq!(&bytes[4096..4096 + 32], &first[..]);
    assert_eq!(&bytes[4096 + 32..4096 + 64], &second[..]);
    assert!(bytes[4096 + 64..].iter().all(|b| *b == 0));
    let t = &db.tables()[0];
    assert_eq!(t.name, "tab");
    assert_eq!((t.col_def_offset, t.meta_offset), (1, 2));
    assert_eq!(t.header_record_offset, 0);
    assert_eq!(t.row_len, 304);
    assert!(t.table_offsets.is_empty());
}

#[test]
fn header_record_keeps_the_bytes_between_name_and_pages() {
    let mut bytes = Database::create_database();
    // a free slot with stale bytes after the length byte
    for b in bytes[1..24].iter_mut() {
        *b = 0xEE;
    }
    let mut db = Database::open(bytes).unwrap();
    db.create_table("ab", &[column("c", 0, 1)]).unwrap();
    let image = db.image();
    assert_eq!(&image[..3], &[2, b'a', b'b']);
    assert!(image[3..24].iter().all(|b| *b == 0xEE));
    assert_eq!(&image[24..32], &[0, 0, 0, 1, 0, 0, 0, 2]);
}

#[test]
fn insert_writes_the_relative_page_number() {
    let mut db = Database::open(Database::create_database()).unwrap();
    db.create_table("t", &[column("a", 1, 4)]).unwrap();
    db.insert("t", &[9, 8, 7, 6]).unwrap();
    let bytes = db.image();
    assert_eq!(bytes.len(), 4 * 4096);
    // the data page is page 3, one after the meta page
    assert_eq!(&bytes[2 * 4096..2 * 4096 + 4], &[0, 0, 0, 1]);
    assert!(bytes[2 * 4096 + 4..3 * 4096].iter().all(|b| *b == 0));
    assert_eq!(&bytes[3 * 4096..3 * 4096 + 4], &[9, 8, 7, 6]);
    assert!(bytes[3 * 4096 + 4..].iter().all(|b| *b == 0));
    assert_eq!(db.tables()[0].table_offsets, vec![1]);
    db.insert("t", &[1, 1, 1, 1]).unwrap();
    assert_eq!(&db.image()[3 * 4096..3 * 4096 + 8], &[9, 8, 7, 6, 1, 1, 1, 1]);
    assert_eq!(db.image().len(), 4 * 4096);
}

#[test]
fn data_page_before_the_meta_page_has_a_negative_number() {
    let mut db = Database::open(Database::create_database()).unwrap();
    db.create_table("one", &[column("a", 1, 4)]).unwrap();
    db.create_table("two", &[column("a", 1, 4)]).unwrap();
    db.drop("one").unwrap();
    // pages 1 and 2 are free again; "two" has its meta page on page 4
    db.insert("two", &[1, 2, 3, 4]).unwrap();
    assert_eq!(db.tables()[0].table_offsets, vec![-3]);
    assert_eq!(&db.image()[4 * 4096..4 * 4096 + 4], &[0xff, 0xff, 0xff, 0xfd]);
    assert_eq!(&db.image()[4096..4096 + 4], &[1, 2, 3, 4]);
    let again = Database::open(db.close()).unwrap();
    assert_eq!(again.tables()[0].table_offsets, vec![-3]);
    assert!(again.page_in_use(1));
    assert!(!again.page_in_use(2));
    let hit = again
        .select("two", &[Condition { range: 0..4, data: vec![1, 2, 3, 4] }])
        .unwrap();
    assert_eq!(hit, vec![vec![1, 2, 3, 4]]);
}

#[test]
fn open_parses_a_file_written_by_hand() {
    let mut bytes = one_table_file(b"hand");
    bytes.extend_from_slice(&[0u8; 4096]);
    // record 5 of the meta page lists page 3
    bytes[2 * 4096 + 5 * 32..2 * 4096 + 5 * 32 + 4].copy_from_slice(&1i32.to_be_bytes());
    bytes[3 * 4096..3 * 4096 + 4].copy_from_slice(&[4, 3, 2, 1]);
    let db = Database::open(bytes).unwrap();
    let t = &db.tables()[0];
    assert_eq!(t.name, "hand");
    assert_eq!(t.row_len, 4);
    assert_eq!(t.table_offsets, vec![1]);
    for page in 0..8 {
        assert_eq!(db.page_in_use(page), page <= 3);
    }
    let cols = db.get_table_def("hand").unwrap();
    assert_eq!(cols.len(), 1);
    assert_eq!((cols[0].name.as_str(), cols[0].column_type, cols[0].size), ("a", 1, 4));
    let rows = db.select("hand", &[Condition { range: 0..2, data: vec![4, 3] }]).unwrap();
    assert_eq!(rows, vec![vec![4, 3, 2, 1]]);
}

#[test]
fn names_that_are_not_utf8_are_replaced_on_read() {
    let db = Database::open(one_table_file(&[b'a', 0xff, b'b'])).unwrap();
    assert_eq!(db.tables()[0].name, "a\u{fffd}b");
    assert!(db.select("a\u{fffd}b", &[]).is_ok());
    assert_eq!(db.select("ab", &[]), Err(CreateTableError::TableNotFound));
    let mut bytes = one_table_file(b"t");
    bytes[4096..4096 + 6].copy_from_slice(&[2, 0xc3, 0x28, 1, 0, 4]);
    let db = Database::open(bytes).unwrap();
    assert_eq!(db.get_table_def("t").unwrap()[0].name, "\u{fffd}(");
}

#[test]
fn names_in_utf8_read_back_as_written() {
    let mut db = Database::open(Database::create_database()).unwrap();
    db.create_table("tête", &[column("größe", 1, 2), column("名前", 2, 3)]).unwrap();
    assert_eq!(db.image()[0], 5);
    assert_eq!(&db.image()[1..6], "tête".as_bytes());
    let db = Database::open(db.close()).unwrap();
    assert_eq!(db.tables()[0].name, "tête");
    let cols = db.get_table_def("tête").unwrap();
    assert_eq!(cols[0].name, "größe");
    assert_eq!(cols[1].name, "名前");
    assert_eq!(db.tables()[0].row_len, 5);
}

#[test]
fn short_file_is_an_io_error() {
    assert!(matches!(Database::open(Vec::new()), Err(CreateTableError::Io)));
    assert!(matches!(Database::open(vec![0u8; 4095]), Err(CreateTableError::Io)));
    assert!(Database::open(vec![0u8; 4096]).is_ok());
    // bytes after the last whole page are kept and ignored
    let db = Database::open(vec![0u8; 4100]).unwrap();
    assert_eq!(db.image().len(), 4100);
}

#[test]
fn corrupt_directories_are_refused() {
    let corrupt = |bytes: Vec<u8>| matches!(Database::open(bytes), Err(CreateTableError::CorruptData));
    assert!(Database::open(one_table_file(b"ok")).is_ok());
    // a name of 24 bytes
    let mut bytes = one_table_file(b"ok");
    bytes[0] = 24;
    assert!(corrupt(bytes));
    // the definition page is the header page
    let mut bytes = one_table_file(b"ok");
    bytes[24..28].copy_from_slice(&0i32.to_be_bytes());
    assert!(corrupt(bytes));
    // a negative meta page
    let mut bytes = one_table_file(b"ok");
    bytes[28..32].copy_from_slice(&(-2i32).to_be_bytes());
    assert!(corrupt(bytes));
    // definition page and meta page are one page
    let mut bytes = one_table_file(b"ok");
    bytes[28..32].copy_from_slice(&1i32.to_be_bytes());
    assert!(corrupt(bytes));
    // the meta page lies past the end of the file
    let mut bytes = one_table_file(b"ok");
    bytes.truncate(2 * 4096);
    assert!(corrupt(bytes));
    // a data page past the end of the file
    let mut bytes = one_table_file(b"ok");
    bytes[2 * 4096..2 * 4096 + 4].copy_from_slice(&1i32.to_be_bytes());
    assert!(corrupt(bytes));
    // a data page that is the definition page
    let mut bytes = one_table_file(b"ok");
    bytes[2 * 4096..2 * 4096 + 4].copy_from_slice(&(-1i32).to_be_bytes());
    assert!(corrupt(bytes));
    // two records list one data page
    let mut bytes = one_table_file(b"ok");
    bytes.extend_from_slice(&[0u8; 4096]);
    bytes[2 * 4096..2 * 4096 + 4].copy_from_slice(&1i32.to_be_bytes());
    bytes[2 * 4096 + 32..2 * 4096 + 36].copy_from_slice(&1i32.to_be_bytes());
    assert!(corrupt(bytes));
    // a column name of 29 bytes
    let mut bytes = one_table_file(b"ok");
    bytes[4096] = 29;
    assert!(corrupt(bytes));
    // no column at all: rows of no bytes
    let mut bytes = one_table_file(b"ok");
    bytes[4096] = 0;
    assert!(corrupt(bytes));
    // rows wider than a page
    let mut bytes = one_table_file(b"ok");
    bytes[4096 + 3..4096 + 5].copy_from_slice(&4097u16.to_be_bytes());
    assert!(corrupt(bytes));
    // two tables of one name
    let mut bytes = one_table_file(b"ok");
    bytes.extend_from_slice(&[0u8; 2 * 4096]);
    bytes[32..35].copy_from_slice(&[2, b'o', b'k']);
    bytes[32 + 24..32 + 28].copy_from_slice(&3i32.to_be_bytes());
    bytes[32 + 28..32 + 32].copy_from_slice(&4i32.to_be_bytes());
    bytes[3 * 4096..3 * 4096 + 5].copy_from_slice(&[1, b'a', 1, 0, 4]);
    assert!(corrupt(bytes.clone()));
    bytes[34] = b'j';
    assert!(Database::open(bytes.clone()).is_ok());
    // two tables on one meta page
    bytes[32 + 28..32 + 32].copy_from_slice(&2i32.to_be_bytes());
    assert!(corrupt(bytes));
}

#[test]
fn header_records_parse_and_emit() {
    let mut page = vec![0u8; 4096];
    let mut record = emit_header_name("users");
    assert_eq!(record, vec![5, b'u', b's', b'e', b'r', b's']);
    record.resize(24, 0xAA);
    record.extend_from_slice(&emit_header_pages(258, -1));
    assert_eq!(&record[24..], &[0, 0, 1, 2, 0xff, 0xff, 0xff, 0xff]);
    page[3 * 32..4 * 32].copy_from_slice(&record);
    let parsed = parse_header_record(&page, 3).unwrap().unwrap();
    assert_eq!(parsed.name, "users");
    assert_eq!((parsed.def_page, parsed.meta_page), (258, -1));
    assert!(parse_header_record(&page, 2).unwrap().is_none());
    page[0] = 23;
    assert_eq!(parse_header_record(&page, 0).unwrap().unwrap().name, "\0".repeat(23));
    page[0] = 24;
    assert!(matches!(parse_header_record(&page, 0), Err(CreateTableError::CorruptData)));
}

#[test]
fn definition_records_parse_and_emit() {
    let mut out = vec![0xCCu8];
    emit_def_record(&column("width", 200, 513), &mut out);
    assert_eq!(out.len(), 33);
    assert_eq!(&out[1..10], &[5, b'w', b'i', b'd', b't', b'h', 200, 2, 1]);
    assert!(out[10..].iter().all(|b| *b == 0));
    let long = "x".repeat(28);
    let mut out = Vec::new();
    emit_def_record(&column(&long, 1, 65535), &mut out);
    assert_eq!(out.len(), 32);
    assert_eq!(out[0], 28);
    assert_eq!(&out[29..], &[1, 0xff, 0xff]);
    let mut page = vec![0u8; 4096];
    page[..32].copy_from_slice(&out);
    let c = parse_def_record(&page, 0).unwrap().unwrap();
    assert_eq!((c.name.as_str(), c.column_type, c.size), (long.as_str(), 1, 65535));
    assert!(parse_def_record(&page, 1).unwrap().is_none());
    page[32] = 29;
    assert!(matches!(parse_def_record(&page, 1), Err(CreateTableError::CorruptData)));
}

#[test]
fn row_width_is_the_sum_of_the_columns_before_the_end() {
    let mut page = Vec::new();
    emit_def_record(&column("a", 1, 4000), &mut page);
    emit_def_record(&column("b", 1, 96), &mut page);
    page.resize(4096, 0);
    assert_eq!(parse_row_len(&page), Ok(4096));
    // a column after the record that ends the list does not count
    let mut later = Vec::new();
    emit_def_record(&column("c", 1, 5), &mut later);
    page[3 * 32..4 * 32].copy_from_slice(&later);
    assert_eq!(parse_row_len(&page), Ok(4096));
    page[2 * 32..3 * 32].copy_from_slice(&later);
    assert_eq!(parse_row_len(&page), Err(CreateTableError::CorruptData));
    assert_eq!(parse_row_len(&vec![0u8; 4096]), Err(CreateTableError::CorruptData));
    // a full page of 128 columns of 32 bytes
    let mut full = Vec::new();
    for _ in 0..128 {
        emit_def_record(&column("k", 0, 32), &mut full);
    }
    assert_eq!(full.len(), 4096);
    assert_eq!(parse_row_len(&full), Ok(4096));
}

#[test]
fn meta_records_parse() {
    let mut page = vec![0u8; 4096];
    page[0..4].copy_from_slice(&7i32.to_be_bytes());
    page[4..32].copy_from_slice(&[0x55; 28]);
    page[64..68].copy_from_slice(&(-2i32).to_be_bytes());
    page[127 * 32..127 * 32 + 4].copy_from_slice(&1i32.to_be_bytes());
    assert_eq!(parse_meta_record(&page, 0), 7);
    assert_eq!(parse_meta_record(&page, 1), 0);
    assert_eq!(parse_meta_record(&page, 2), -2);
    assert_eq!(parse_meta_page(&page), vec![7, -2, 1]);
    assert_eq!(parse_meta_page(&vec![0u8; 4096]), Vec::<i32>::new());
}

#[test]
fn same_text_compares_strings() {
    assert!(same_text("", ""));
    assert!(same_text("abc", "abc"));
    assert!(!same_text("abc", "abd"));
    assert!(!same_text("abc", "ab"));
    assert!(same_text("größe", "größe"));
    assert!(!same_text("große", "größe"));
}

#[test]
fn check_table_exists_finds_by_name() {
    let entry = |name: &str, slot: u8| HeaderMeta {
        name: name.to_string(),
        col_def_offset: 1,
        meta_offset: 2,
        table_offsets: Vec::new(),
        header_record_offset: slot,
        row_len: 4,
    };
    let tables = vec![entry("a", 0), entry("b", 5), entry("c", 9)];
    assert_eq!(check_table_exists(&tables, "b").unwrap().header_record_offset, 5);
    assert_eq!(check_table_exists(&tables, "c").unwrap().header_record_offset, 9);
    assert!(matches!(check_table_exists(&tables, "d"), Err(CreateTableError::TableNotFound)));
    assert!(matches!(check_table_exists(&Vec::new(), "a"), Err(CreateTableError::TableNotFound)));
}
