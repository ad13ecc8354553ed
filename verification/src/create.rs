//! Create: a new table gets a header record, a definition page and an empty
//! meta page.

use crate::allocator::{lemma_first_free, lowest_free, lowest_free_after, none_free};
use crate::catalog::{
    column_fits, decode_name, def_column, def_columns, def_len, def_page_bytes, def_record_bytes,
    def_records, emit_def_record, emit_header_name, emit_header_pages, header_name_bytes,
    header_page_bytes, header_rec, lemma_def_len, meta_rel, meta_rels, rec_live, total_size,
    utf8_lossy,
};
use crate::database::{
    data_ok, data_pages, entry_of, in_use_of, mirrors_upto, slot_def, slot_live, slot_meta,
    slot_name, slot_ok, slot_owns, slots_apart, table_specs, valid, Database, DatabaseSpec,
    HeaderMeta, TableSpec,
};
use crate::layout::{
    grown, has_page, i32_bytes, lemma_be_round_trip, lemma_grown_page, lemma_grown_same,
    lemma_splice_page, lemma_splice_record, page_of, record_of, splice, u16_bytes, zeros,
    COLUMN_NAME_MAX_LEN, HEADER_DEF_AT, PAGE_SIZE, RECORD_COUNT, RECORD_LEN, TABLE_NAME_MAX_LEN,
};
use crate::schema::column_specs;
use crate::store::written;
use crate::table::{ColumnDef, ColumnSpec, CreateTableError};
use vstd::prelude::*;
use vstd::utf8::encode_utf8;

verus! {

// ----------------------------------------------------------------------
// The definition page of a list of columns

/// The records of the first `n` columns take 32 bytes each, and each is where
/// its number says.
pub proof fn lemma_def_records(cols: Seq<ColumnSpec>, n: int, i: int)
    requires
        0 <= i < n <= cols.len(),
        forall|j: int| 0 <= j < cols.len() ==> column_fits(#[trigger] cols[j]),
    ensures
        def_records(cols, n).len() == 32 * n,
        def_records(cols, n).subrange(i * 32, i * 32 + 32) == def_record_bytes(cols[i]),
    decreases n,
{
    lemma_def_records_len(cols, n);
    lemma_def_records_len(cols, n - 1);
    assert(column_fits(cols[n - 1]));
    if i < n - 1 {
        lemma_def_records(cols, n - 1, i);
        assert(def_records(cols, n).subrange(i * 32, i * 32 + 32) =~= def_records(cols, n - 1).subrange(
            i * 32,
            i * 32 + 32,
        ));
    } else {
        assert(def_records(cols, n).subrange(i * 32, i * 32 + 32) =~= def_record_bytes(cols[i]));
    }
}

/// The records of the first `n` columns take 32 bytes each.
pub proof fn lemma_def_records_len(cols: Seq<ColumnSpec>, n: int)
    requires
        0 <= n <= cols.len(),
        forall|j: int| 0 <= j < cols.len() ==> column_fits(#[trigger] cols[j]),
    ensures
        def_records(cols, n).len() == 32 * n,
    decreases n,
{
    if n > 0 {
        lemma_def_records_len(cols, n - 1);
        assert(column_fits(cols[n - 1]));
    }
}

/// A definition record describes the column that it was emitted for, where
/// the name of the column reads back as it was written.
pub proof fn lemma_def_record(c: ColumnSpec)
    requires
        column_fits(c),
        utf8_lossy(encode_utf8(c.name)) == c.name,
    ensures
        def_record_bytes(c).len() == 32,
        1 <= def_record_bytes(c)[0] <= 28,
        def_column(def_record_bytes(c)) == c,
{
    let rec = def_record_bytes(c);
    let name = encode_utf8(c.name);
    let len = name.len() as int;
    assert(rec[0] == len);
    assert(rec.subrange(1, 1 + len) =~= name);
    assert(rec[1 + len] == c.column_type);
    assert(rec.subrange(2 + len, 4 + len) =~= u16_bytes(c.size as int));
    lemma_be_round_trip(c.size as int);
}

/// The sum of the widths of the first columns and of one more.
pub proof fn lemma_total_take(cols: Seq<ColumnSpec>, i: int)
    requires
        0 <= i < cols.len(),
    ensures
        total_size(cols.take(i + 1)) == total_size(cols.take(i)) + cols[i].size,
        0 <= total_size(cols.take(i)),
    decreases i,
{
    assert(cols.take(i + 1).drop_last() =~= cols.take(i));
    if i > 0 {
        lemma_total_take(cols, i - 1);
    }
}

/// The definition page of a list of columns is a page that lists those
/// columns, where each fits a record and its name reads back as written.
pub proof fn lemma_def_page(cols: Seq<ColumnSpec>)
    requires
        cols.len() <= 128,
        forall|j: int| 0 <= j < cols.len() ==> column_fits(#[trigger] cols[j]),
        forall|j: int| 0 <= j < cols.len() ==> utf8_lossy(encode_utf8((#[trigger] cols[j]).name)) == cols[j].name,
    ensures
        def_page_bytes(cols).len() == 4096,
        def_len(def_page_bytes(cols)) == cols.len(),
        def_columns(def_page_bytes(cols)) == cols,
        forall|i: int| 0 <= i < cols.len() ==> (#[trigger] record_of(def_page_bytes(cols), i))[0] <= 28,
{
    let page = def_page_bytes(cols);
    let n = cols.len() as int;
    lemma_def_records_len(cols, n);
    assert forall|i: int| 0 <= i < 128 implies #[trigger] record_of(page, i) == if i < n {
        def_record_bytes(cols[i])
    } else {
        zeros(32)
    } by {
        if i < n {
            lemma_def_records(cols, n, i);
            assert(record_of(page, i) =~= def_records(cols, n).subrange(i * 32, i * 32 + 32));
        } else {
            assert(record_of(page, i) =~= zeros(32));
        }
    }
    assert forall|i: int| 0 <= i < n implies (#[trigger] record_of(page, i))[0] != 0 && record_of(page, i)[0]
        <= 28 && def_column(record_of(page, i)) == cols[i] by {
        assert(column_fits(cols[i]));
        lemma_def_record(cols[i]);
    }
    if n < 128 {
        assert(record_of(page, n) == zeros(32));
    }
    lemma_def_len(page, n);
    assert(def_columns(page) =~= cols);
}

/// Emits the definition page of a list of columns.
fn emit_def_page(cols: &[ColumnDef]) -> (page: Vec<u8>)
    requires
        cols@.len() <= 128,
        forall|j: int| 0 <= j < cols@.len() ==> column_fits(#[trigger] column_specs(cols@)[j]),
    ensures
        page@ == def_page_bytes(column_specs(cols@)),
        page@.len() == 4096,
{
    let ghost specs = column_specs(cols@);
    let mut page: Vec<u8> = Vec::new();
    let mut i: usize = 0;
    while i < cols.len()
        invariant
            i <= cols@.len() <= 128,
            specs == column_specs(cols@),
            forall|j: int| 0 <= j < specs.len() ==> column_fits(#[trigger] specs[j]),
            page@ == def_records(specs, i as int),
            page@.len() == 32 * i,
        decreases cols@.len() - i,
    {
        assert(specs[i as int] == cols@[i as int]@);
        emit_def_record(&cols[i], &mut page);
        i += 1;
    }
    let ghost records = page@;
    let mut k: usize = page.len();
    assert(page@ =~= records + zeros(0));
    while k < PAGE_SIZE
        invariant
            records.len() <= k <= 4096,
            page@ == records + zeros(k - records.len()),
        decreases 4096 - k,
    {
        page.push(0u8);
        k += 1;
        assert(page@ =~= records + zeros(k - records.len()));
    }
    page
}

// ----------------------------------------------------------------------
// What a create does

/// What is wrong with a list of columns, if anything: a name of more than
/// 28 bytes is `ColumnNameTooLong`, an empty name `InvalidArgument`, a row
/// of more than 4096 bytes `ColumnTooBig`, a row of no bytes
/// `InvalidArgument`.
pub open spec fn columns_error(cols: Seq<ColumnSpec>) -> Option<CreateTableError> {
    if exists|i: int| 0 <= i < cols.len() && encode_utf8((#[trigger] cols[i]).name).len() > 28 {
        Some(CreateTableError::ColumnNameTooLong)
    } else if exists|i: int| 0 <= i < cols.len() && encode_utf8((#[trigger] cols[i]).name).len() == 0 {
        Some(CreateTableError::InvalidArgument)
    } else if total_size(cols) > 4096 {
        Some(CreateTableError::ColumnTooBig)
    } else if total_size(cols) < 1 {
        Some(CreateTableError::InvalidArgument)
    } else {
        None
    }
}

/// Header slot `s` is the first that names no table.
pub open spec fn is_free_slot(img: Seq<u8>, s: int) -> bool {
    &&& 0 <= s < 128
    &&& !slot_live(img, s)
    &&& forall|t: int| 0 <= t < s ==> slot_live(img, t)
}

/// The first header slot that names no table.
pub open spec fn free_slot(img: Seq<u8>) -> int {
    choose|s: int| is_free_slot(img, s)
}

/// Every header slot names a table.
pub open spec fn header_full(img: Seq<u8>) -> bool {
    forall|s: int| 0 <= s < 128 ==> slot_live(img, s)
}

/// Why a table cannot be created, if it cannot, in the order in which the
/// reasons are tried: a name that does not take 1 to 23 bytes is
/// `InvalidArgument`; more than 128 columns are `TooManyColumns`; a name
/// that a table has is `TableExists`; then what is wrong with the columns;
/// a header without a free slot is `HeaderTableFull`; no free page for the
/// definition page, or none after it for the meta page, is `StorageFull`; a
/// meta page that the machine cannot address is `Io`.
pub open spec fn create_error(db: DatabaseSpec, name: Seq<char>, cols: Seq<ColumnSpec>) -> Option<
    CreateTableError,
> {
    if encode_utf8(name).len() < 1 || encode_utf8(name).len() > 23 {
        Some(CreateTableError::InvalidArgument)
    } else if cols.len() > 128 {
        Some(CreateTableError::TooManyColumns)
    } else if db.find(name) is Some {
        Some(CreateTableError::TableExists)
    } else if columns_error(cols) is Some {
        columns_error(cols)
    } else if header_full(db.image) {
        Some(CreateTableError::HeaderTableFull)
    } else if none_free(db.in_use, 1) || none_free(db.in_use, lowest_free(db.in_use) + 1) {
        Some(CreateTableError::StorageFull)
    } else if (lowest_free_after(db.in_use, lowest_free(db.in_use)) + 1) * 4096 > usize::MAX {
        Some(CreateTableError::Io)
    } else {
        None
    }
}

/// The file after a table was created in header slot `slot`, with the
/// definition page `def` and the meta page `meta`: the file grows to hold
/// the meta page; the definition page lists the columns; the meta page is
/// all zeros; the header record gets the length of the name and the name at
/// its start and the two page numbers at its end, and keeps the bytes
/// between them.
pub open spec fn created_image(
    img: Seq<u8>,
    slot: int,
    name: Seq<char>,
    cols: Seq<ColumnSpec>,
    def: int,
    meta: int,
) -> Seq<u8> {
    let a = grown(img, (meta + 1) * 4096);
    let b = splice(a, def * 4096, def_page_bytes(cols));
    let c = splice(b, meta * 4096, zeros(4096));
    let d = splice(c, slot * 32, header_name_bytes(name));
    splice(d, slot * 32 + 24, header_page_bytes(def, meta))
}

/// What a create gives: the file with the new table, in the first free
/// header slot, on the smallest free page and the smallest free page after
/// it; or the reason why the table cannot be created.
pub open spec fn create_result(db: DatabaseSpec, name: Seq<char>, cols: Seq<ColumnSpec>) -> Result<
    Seq<u8>,
    CreateTableError,
> {
    match create_error(db, name, cols) {
        Some(e) => Err(e),
        None => Ok(
            created_image(
                db.image,
                free_slot(db.image),
                name,
                cols,
                lowest_free(db.in_use),
                lowest_free_after(db.in_use, lowest_free(db.in_use)),
            ),
        ),
    }
}

/// The table that a create adds to the handle's list.
pub open spec fn created_table(
    slot: int,
    name: Seq<char>,
    cols: Seq<ColumnSpec>,
    def: int,
    meta: int,
) -> TableSpec {
    TableSpec {
        name,
        def_page: def,
        meta_page: meta,
        offsets: Seq::empty(),
        slot,
        row_len: total_size(cols),
    }
}

/// A whole page written over a page of the file changes that page alone.
pub proof fn lemma_page_replaced(img: Seq<u8>, n: int, page: Seq<u8>, m: int)
    requires
        has_page(img, n),
        has_page(img, m),
        page.len() == 4096,
    ensures
        splice(img, n * 4096, page).len() == img.len(),
        written(img, n, 0, page) == splice(img, n * 4096, page),
        page_of(splice(img, n * 4096, page), n) == page,
        m != n ==> page_of(splice(img, n * 4096, page), m) == page_of(img, m),
{
    lemma_grown_same(img, n);
    lemma_splice_page(img, n, 0, page, m);
    assert(splice(page_of(img, n), 0, page) =~= page);
}

/// What the file holds after a create: the definition page, the empty meta
/// page, the header record of the new table, and every other page and every
/// other header record as it was.
pub proof fn lemma_created_pages(
    img: Seq<u8>,
    s0: int,
    name: Seq<char>,
    cols: Seq<ColumnSpec>,
    def: int,
    meta: int,
)
    requires
        has_page(img, 0),
        0 <= s0 < 128,
        1 <= encode_utf8(name).len() <= 23,
        def_page_bytes(cols).len() == 4096,
        1 <= def < meta,
    ensures
        ({
            let dp = def_page_bytes(cols);
            let np = header_name_bytes(name);
            let pp = header_page_bytes(def, meta);
            let a = grown(img, (meta + 1) * 4096);
            let b = splice(a, def * 4096, dp);
            let c = splice(b, meta * 4096, zeros(4096));
            let d = splice(c, s0 * 32, np);
            let fin = created_image(img, s0, name, cols, def, meta);
            &&& written(a, def, 0, dp) == b
            &&& written(b, meta, 0, zeros(4096)) == c
            &&& written(c, 0, s0 * 32, np) == d
            &&& written(d, 0, s0 * 32 + 24, pp) == fin
            &&& fin.len() >= img.len()
            &&& has_page(fin, def)
            &&& has_page(fin, meta)
            &&& page_of(fin, def) == dp
            &&& page_of(fin, meta) == zeros(4096)
            &&& forall|q: int|
                has_page(img, q) && q != 0 && q != def && q != meta ==> has_page(fin, q) && #[trigger] page_of(
                    fin,
                    q,
                ) == page_of(img, q)
            &&& forall|s: int|
                0 <= s < 128 ==> #[trigger] header_rec(fin, s) == if s == s0 {
                    splice(splice(header_rec(img, s0), 0, np), 24, pp)
                } else {
                    header_rec(img, s)
                }
        }),
{
    let dp = def_page_bytes(cols);
    let np = header_name_bytes(name);
    let pp = header_page_bytes(def, meta);
    let a = grown(img, (meta + 1) * 4096);
    let b = splice(a, def * 4096, dp);
    let c = splice(b, meta * 4096, zeros(4096));
    let d = splice(c, s0 * 32, np);
    let fin = created_image(img, s0, name, cols, def, meta);
    lemma_be_round_trip(def);
    lemma_be_round_trip(meta);
    // the pages
    assert(has_page(a, 0) && has_page(a, def) && has_page(a, meta));
    assert forall|q: int| has_page(img, q) implies has_page(a, q) && #[trigger] page_of(a, q) == page_of(
        img,
        q,
    ) by {
        lemma_grown_page(img, (meta + 1) * 4096, q);
    }
    assert forall|q: int| has_page(a, q) implies has_page(fin, q) && #[trigger] page_of(fin, q) == if q == def {
        dp
    } else if q == meta {
        zeros(4096)
    } else if q == 0 {
        splice(splice(page_of(a, 0), s0 * 32, np), s0 * 32 + 24, pp)
    } else {
        page_of(a, q)
    } by {
        lemma_page_replaced(a, def, dp, q);
        lemma_page_replaced(b, meta, zeros(4096), q);
        lemma_splice_page(c, 0, s0 * 32, np, q);
        lemma_splice_page(d, 0, s0 * 32 + 24, pp, q);
    }
    lemma_page_replaced(a, def, dp, 0);
    lemma_page_replaced(b, meta, zeros(4096), 0);
    lemma_grown_same(c, 0);
    lemma_grown_same(d, 0);
    lemma_splice_page(c, 0, s0 * 32, np, 0);
    lemma_splice_page(d, 0, s0 * 32 + 24, pp, 0);
    // the header records
    let p0 = page_of(img, 0);
    let p1 = splice(p0, s0 * 32, np);
    let rec = splice(splice(header_rec(img, s0), 0, np), 24, pp);
    assert(page_of(a, 0) == p0);
    assert forall|s: int| 0 <= s < 128 implies #[trigger] header_rec(fin, s) == if s == s0 {
        rec
    } else {
        header_rec(img, s)
    } by {
        lemma_splice_record(p0, s0, 0, np, s);
        lemma_splice_record(p1, s0, 24, pp, s);
    }
}

/// A create keeps the database valid: the new table is the one described,
/// its two pages are in use after it, and its definition page lists the
/// columns.
pub proof fn lemma_create(
    img: Seq<u8>,
    s0: int,
    name: Seq<char>,
    cols: Seq<ColumnSpec>,
    def: int,
    meta: int,
    tables: Seq<TableSpec>,
)
    requires
        valid(img),
        mirrors_upto(img, tables, 128),
        0 <= s0 < 128,
        !slot_live(img, s0),
        1 <= encode_utf8(name).len() <= 23,
        utf8_lossy(encode_utf8(name)) == name,
        forall|k: int| 0 <= k < tables.len() ==> (#[trigger] tables[k]).name != name,
        cols.len() <= 128,
        forall|j: int| 0 <= j < cols.len() ==> column_fits(#[trigger] cols[j]),
        forall|j: int| 0 <= j < cols.len() ==> utf8_lossy(encode_utf8((#[trigger] cols[j]).name)) == cols[j].name,
        1 <= total_size(cols) <= 4096,
        1 <= def < meta <= i32::MAX,
        !in_use_of(img).contains(def),
        !in_use_of(img).contains(meta),
    ensures
        ({
            let a = grown(img, (meta + 1) * 4096);
            let b = splice(a, def * 4096, def_page_bytes(cols));
            let c = splice(b, meta * 4096, zeros(4096));
            let d = splice(c, s0 * 32, header_name_bytes(name));
            let fin = created_image(img, s0, name, cols, def, meta);
            &&& written(a, def, 0, def_page_bytes(cols)) == b
            &&& written(b, meta, 0, zeros(4096)) == c
            &&& written(c, 0, s0 * 32, header_name_bytes(name)) == d
            &&& written(d, 0, s0 * 32 + 24, header_page_bytes(def, meta)) == fin
            &&& valid(fin)
            &&& in_use_of(fin) == in_use_of(img).insert(def).insert(meta)
            &&& entry_of(fin, s0) == created_table(s0, name, cols, def, meta)
            &&& mirrors_upto(fin, tables.push(created_table(s0, name, cols, def, meta)), 128)
            &&& def_columns(page_of(fin, def)) == cols
        }),
{
    let dp = def_page_bytes(cols);
    let np = header_name_bytes(name);
    let pp = header_page_bytes(def, meta);
    let a = grown(img, (meta + 1) * 4096);
    let b = splice(a, def * 4096, dp);
    let c = splice(b, meta * 4096, zeros(4096));
    let d = splice(c, s0 * 32, np);
    let fin = created_image(img, s0, name, cols, def, meta);
    let len = encode_utf8(name).len() as int;
    lemma_def_page(cols);
    lemma_be_round_trip(def);
    lemma_be_round_trip(meta);
    lemma_created_pages(img, s0, name, cols, def, meta);
    let rec = splice(splice(header_rec(img, s0), 0, np), 24, pp);
    assert(rec[0] == len);
    assert(rec.subrange(1, 1 + rec[0]) =~= encode_utf8(name));
    assert(rec.subrange(24, 28) =~= i32_bytes(def));
    assert(rec.subrange(28, 32) =~= i32_bytes(meta));
    assert(slot_live(fin, s0));
    assert(slot_name(fin, s0) == name);
    assert(slot_def(fin, s0) == def);
    assert(slot_meta(fin, s0) == meta);
    assert forall|s: int| 0 <= s < 128 && s != s0 implies slot_live(fin, s) == #[trigger] slot_live(img, s) by {
        assert(header_rec(fin, s) == header_rec(img, s));
    }
    // the meta page of the new table lists nothing
    let mp = page_of(fin, meta);
    assert forall|i: int| 0 <= i < 128 implies #[trigger] meta_rel(mp, i) == 0 by {
        assert(mp.subrange(i * 32, i * 32 + 4) =~= zeros(4));
    }
    assert(data_pages(mp, meta) =~= Set::empty()) by {
        assert forall|q: int| !data_pages(mp, meta).contains(q) by {
            if data_pages(mp, meta).contains(q) {
                let i = choose|i: int| 0 <= i < 128 && #[trigger] meta_rel(mp, i) != 0 && q == meta + meta_rel(mp, i);
            }
        }
    }
    assert(meta_rels(mp, 128) =~= Seq::<int>::empty()) by {
        lemma_no_rels(mp, 128);
    }
    assert(slot_ok(fin, s0));
    assert(entry_of(fin, s0) == created_table(s0, name, cols, def, meta));
    assert forall|p: int| slot_owns(fin, s0, p) == (p == def || p == meta) by {}
    // the other tables are as they were
    assert forall|s: int| 0 <= s < 128 && s != s0 && #[trigger] slot_live(fin, s) implies slot_ok(fin, s)
        && entry_of(fin, s) == entry_of(img, s) && (forall|p: int|
        slot_owns(fin, s, p) == slot_owns(img, s, p)) by {
        assert(header_rec(fin, s) == header_rec(img, s));
        assert(slot_live(img, s));
        assert(slot_ok(img, s));
        let dd = slot_def(img, s);
        let m = slot_meta(img, s);
        assert(slot_owns(img, s, dd) && slot_owns(img, s, m));
        assert(in_use_of(img).contains(dd) && in_use_of(img).contains(m));
        assert(page_of(fin, dd) == page_of(img, dd));
        assert(page_of(fin, m) == page_of(img, m));
        let page = page_of(img, m);
        assert forall|i: int| 0 <= i < 128 && #[trigger] meta_rel(page, i) != 0 implies data_ok(
            fin,
            dd,
            m + meta_rel(page, i),
        ) by {
            assert(data_ok(img, dd, m + meta_rel(page, i)));
        }
    }
    assert forall|s: int, t: int|
        0 <= s < 128 && 0 <= t < 128 && s != t && #[trigger] slot_live(fin, s) && #[trigger] slot_live(
            fin,
            t,
        ) implies slots_apart(fin, s, t) by {
        if s != s0 && t != s0 {
            assert(header_rec(fin, s) == header_rec(img, s));
            assert(header_rec(fin, t) == header_rec(img, t));
            assert(slot_live(img, s) && slot_live(img, t));
            assert(slots_apart(img, s, t));
            assert forall|p: int| !(#[trigger] slot_owns(fin, s, p) && slot_owns(fin, t, p)) by {
                assert(slot_owns(fin, s, p) == slot_owns(img, s, p));
                assert(slot_owns(fin, t, p) == slot_owns(img, t, p));
            }
        } else {
            let o = if s == s0 {
                t
            } else {
                s
            };
            assert(header_rec(fin, o) == header_rec(img, o));
            assert(slot_live(img, o));
            let k = choose|k: int| 0 <= k < tables.len() && (#[trigger] tables[k]).slot == o;
            assert(tables[k] == entry_of(img, o));
            assert(slot_name(fin, o) != name);
            assert forall|p: int| !(#[trigger] slot_owns(fin, s, p) && slot_owns(fin, t, p)) by {
                if slot_owns(fin, o, p) {
                    assert(slot_owns(img, o, p));
                    assert(in_use_of(img).contains(p));
                }
            }
        }
    }
    let after = in_use_of(img).insert(def).insert(meta);
    assert(in_use_of(fin) =~= after) by {
        assert forall|p: int| in_use_of(fin).contains(p) == after.contains(p) by {
            if in_use_of(fin).contains(p) && p != 0 {
                let s = choose|s: int| 0 <= s < 128 && slot_live(fin, s) && #[trigger] slot_owns(fin, s, p);
                if s != s0 {
                    assert(slot_live(img, s) && slot_owns(img, s, p));
                }
            }
            if in_use_of(img).contains(p) && p != 0 {
                let s = choose|s: int| 0 <= s < 128 && slot_live(img, s) && #[trigger] slot_owns(img, s, p);
                assert(slot_live(fin, s) && slot_owns(fin, s, p));
            }
            if p == def || p == meta {
                assert(slot_live(fin, s0) && slot_owns(fin, s0, p));
            }
        }
    }
    let more = tables.push(created_table(s0, name, cols, def, meta));
    assert forall|k: int| 0 <= k < more.len() implies {
        let t = #[trigger] more[k];
        0 <= t.slot < 128 && slot_live(fin, t.slot) && t == entry_of(fin, t.slot)
    } by {
        if k < tables.len() {
            assert(more[k] == tables[k]);
            assert(slot_live(img, tables[k].slot));
        }
    }
    assert forall|j: int, k: int| 0 <= j < k < more.len() implies (#[trigger] more[j]).slot != (
    #[trigger] more[k]).slot by {
        assert(more[j] == tables[j]);
        assert(slot_live(img, tables[j].slot));
        if k < tables.len() {
            assert(more[k] == tables[k]);
        }
    }
    assert forall|s: int| 0 <= s < 128 && #[trigger] slot_live(fin, s) implies exists|k: int|
        0 <= k < more.len() && (#[trigger] more[k]).slot == s by {
        if s == s0 {
            assert(more[tables.len() as int].slot == s);
        } else {
            assert(slot_live(img, s));
            let k = choose|k: int| 0 <= k < tables.len() && (#[trigger] tables[k]).slot == s;
            assert(more[k].slot == s);
        }
    }
}

/// A meta page whose records are all free lists nothing.
pub proof fn lemma_no_rels(page: Seq<u8>, n: int)
    requires
        0 <= n <= 128,
        forall|i: int| 0 <= i < 128 ==> #[trigger] meta_rel(page, i) == 0,
    ensures
        meta_rels(page, n).len() == 0,
    decreases n,
{
    if n > 0 {
        lemma_no_rels(page, n - 1);
    }
}

/// Checks a list of columns: gives the width of the row, or what is wrong.
/// It reads each name back as the file would give it.
fn check_columns(cols: &[ColumnDef]) -> (r: Result<u16, CreateTableError>)
    requires
        cols@.len() <= 128,
    ensures
        match r {
            Ok(w) => {
                let specs = column_specs(cols@);
                &&& columns_error(specs) is None
                &&& w == total_size(specs)
                &&& forall|j: int| 0 <= j < specs.len() ==> column_fits(#[trigger] specs[j])
                &&& forall|j: int|
                    0 <= j < specs.len() ==> utf8_lossy(encode_utf8((#[trigger] specs[j]).name)) == specs[j].name
            },
            Err(e) => columns_error(column_specs(cols@)) == Some(e),
        },
{
    let ghost specs = column_specs(cols@);
    let mut too_long = false;
    let mut empty = false;
    let mut total: u32 = 0;
    let mut i: usize = 0;
    assert(specs.take(0) =~= Seq::<ColumnSpec>::empty());
    while i < cols.len()
        invariant
            i <= cols@.len() <= 128,
            specs == column_specs(cols@),
            too_long == exists|j: int| 0 <= j < i && encode_utf8((#[trigger] specs[j]).name).len() > 28,
            empty == exists|j: int| 0 <= j < i && encode_utf8((#[trigger] specs[j]).name).len() == 0,
            forall|j: int| 0 <= j < i ==> utf8_lossy(encode_utf8((#[trigger] specs[j]).name)) == specs[j].name,
            total == total_size(specs.take(i as int)),
            total <= i * 65535,
        decreases cols@.len() - i,
    {
        assert(specs[i as int] == cols@[i as int]@);
        let name = cols[i].name.as_str().as_bytes();
        let _read_back = decode_name(name);
        proof {
            vstd::utf8::encode_utf8_valid_utf8(specs[i as int].name);
            vstd::utf8::encode_utf8_decode_utf8(specs[i as int].name);
            lemma_total_take(specs, i as int);
        }
        if name.len() > COLUMN_NAME_MAX_LEN {
            too_long = true;
        }
        if name.len() == 0 {
            empty = true;
        }
        total = total + cols[i].size as u32;
        i += 1;
    }
    assert(specs.take(specs.len() as int) =~= specs);
    if too_long {
        Err(CreateTableError::ColumnNameTooLong)
    } else if empty {
        Err(CreateTableError::InvalidArgument)
    } else if total > 4096 {
        Err(CreateTableError::ColumnTooBig)
    } else if total < 1 {
        Err(CreateTableError::InvalidArgument)
    } else {
        Ok(total as u16)
    }
}

/// The first record of the header page that names no table.
fn find_free_slot(page: &[u8]) -> (r: Option<usize>)
    requires
        page@.len() == 4096,
    ensures
        match r {
            Some(s) => s < 128 && !rec_live(record_of(page@, s as int)) && forall|t: int|
                0 <= t < s ==> rec_live(#[trigger] record_of(page@, t)),
            None => forall|t: int| 0 <= t < 128 ==> rec_live(#[trigger] record_of(page@, t)),
        },
{
    let mut s: usize = 0;
    while s < RECORD_COUNT
        invariant
            s <= 128,
            page@.len() == 4096,
            forall|t: int| 0 <= t < s ==> rec_live(#[trigger] record_of(page@, t)),
        decreases 128 - s,
    {
        assert(record_of(page@, s as int)[0] == page@[s * 32]);
        if page[s * RECORD_LEN] == 0 {
            return Some(s);
        }
        s += 1;
    }
    None
}

impl Database {
    /// Creates a table: takes the first free header slot, the smallest free
    /// page for the definition page and the smallest free page after it for
    /// the meta page, writes the header record, the definition page and an
    /// empty meta page, and adds the table to the handle's list. On an error
    /// the database is unchanged.
    pub fn create_table(&mut self, table_name: &str, table_def: &[ColumnDef]) -> (r: Result<
        (),
        CreateTableError,
    >)
        requires
            old(self).wf(),
        ensures
            final(self).wf(),
            match create_result(old(self)@, table_name@, column_specs(table_def@)) {
                Ok(image) => {
                    let def = lowest_free(old(self)@.in_use);
                    &&& r == Ok::<(), CreateTableError>(())
                    &&& final(self)@.image == image
                    &&& final(self)@.tables == old(self)@.tables.push(
                        created_table(
                            free_slot(old(self)@.image),
                            table_name@,
                            column_specs(table_def@),
                            def,
                            lowest_free_after(old(self)@.in_use, def),
                        ),
                    )
                    &&& def_columns(page_of(image, def)) == column_specs(table_def@)
                    &&& final(self)@.find(table_name@) == Some(
                        created_table(
                            free_slot(old(self)@.image),
                            table_name@,
                            column_specs(table_def@),
                            def,
                            lowest_free_after(old(self)@.in_use, def),
                        ),
                    )
                },
                Err(e) => r == Err::<(), CreateTableError>(e) && final(self)@ == old(self)@,
            },
    {
        let ghost name = table_name@;
        let ghost cols = column_specs(table_def@);
        let name_bytes = table_name.as_bytes();
        if name_bytes.len() < 1 || name_bytes.len() > TABLE_NAME_MAX_LEN {
            return Err(CreateTableError::InvalidArgument);
        }
        if table_def.len() > RECORD_COUNT {
            return Err(CreateTableError::TooManyColumns);
        }
        match self.table_info(table_name) {
            Ok(_) => {
                return Err(CreateTableError::TableExists);
            },
            Err(_) => {},
        }
        let row_len = match check_columns(table_def) {
            Ok(w) => w,
            Err(e) => {
                return Err(e);
            },
        };
        proof {
            self.lemma_view();
        }
        let ghost img = self@.image;
        let ghost tables = self@.tables;
        let page0 = match self.store.read_page(0) {
            Ok(page) => page,
            Err(e) => {
                return Err(e);
            },
        };
        let slot = match find_free_slot(page0.as_slice()) {
            Some(s) => s,
            None => {
                assert forall|s: int| 0 <= s < 128 implies slot_live(img, s) by {
                    assert(rec_live(record_of(page0@, s)));
                }
                return Err(CreateTableError::HeaderTableFull);
            },
        };
        proof {
            assert(is_free_slot(img, slot as int)) by {
                assert forall|t: int| 0 <= t < slot implies slot_live(img, t) by {
                    assert(rec_live(record_of(page0@, t)));
                }
            }
            assert forall|s: int| is_free_slot(img, s) implies s == slot by {
                if s < slot {
                    assert(slot_live(img, s));
                } else if slot < s {
                    assert(slot_live(img, slot as int));
                }
            }
        }
        let def = match self.in_use_pages.allocate() {
            Ok(p) => p,
            Err(e) => {
                return Err(e);
            },
        };
        proof {
            lemma_first_free(self.in_use_pages@, 1, def as int);
        }
        let meta = match self.in_use_pages.allocate_after(def) {
            Ok(p) => p,
            Err(e) => {
                return Err(e);
            },
        };
        proof {
            lemma_first_free(self.in_use_pages@, def + 1, meta as int);
        }
        match self.store.extend_to(meta) {
            Ok(()) => {},
            Err(e) => {
                proof {
                    self.lemma_view();
                }
                return Err(e);
            },
        }
        let owned = decode_name(name_bytes);
        proof {
            vstd::utf8::encode_utf8_valid_utf8(name);
            vstd::utf8::encode_utf8_decode_utf8(name);
            assert forall|k: int| 0 <= k < tables.len() implies (#[trigger] tables[k]).name != name by {
                if tables[k].name == name {
                    assert(self@.find(name) is Some);
                }
            }
            lemma_create(img, slot as int, name, cols, def as int, meta as int, tables);
        }
        let def_page = emit_def_page(table_def);
        let meta_page: Vec<u8> = vec![0u8; PAGE_SIZE];
        assert(meta_page@ =~= zeros(4096));
        let name_part = emit_header_name(table_name);
        let page_part = emit_header_pages(def, meta);
        match self.store.write_at(def, 0, def_page.as_slice()) {
            Ok(()) => {},
            Err(e) => {
                assert(false);
                return Err(e);
            },
        }
        match self.store.write_at(meta, 0, meta_page.as_slice()) {
            Ok(()) => {},
            Err(e) => {
                assert(false);
                return Err(e);
            },
        }
        match self.store.write_at(0, slot * RECORD_LEN, name_part.as_slice()) {
            Ok(()) => {},
            Err(e) => {
                assert(false);
                return Err(e);
            },
        }
        match self.store.write_at(0, slot * RECORD_LEN + HEADER_DEF_AT, page_part.as_slice()) {
            Ok(()) => {},
            Err(e) => {
                assert(false);
                return Err(e);
            },
        }
        self.in_use_pages.mark(def);
        self.in_use_pages.mark(meta);
        let entry = HeaderMeta {
            name: owned,
            col_def_offset: def,
            meta_offset: meta,
            table_offsets: Vec::new(),
            header_record_offset: slot as u8,
            row_len,
        };
        let ghost before = self.header_table@;
        assert(entry@ == created_table(slot as int, name, cols, def as int, meta as int)) by {
            assert(entry@.offsets =~= Seq::<int>::empty());
        }
        let ghost e = entry@;
        self.header_table.push(entry);
        proof {
            assert(table_specs(self.header_table@) =~= table_specs(before).push(e));
            self.lemma_view();
            self@.lemma_find(before.len() as int);
        }
        Ok(())
    }
}

} // verus!
