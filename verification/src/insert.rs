//! Insert: a row goes into the first empty slot of the table, or into a new
//! data page.

use crate::allocator::{lemma_first_free, lowest_free, none_free};
use crate::catalog::{
    lemma_meta_rel_splice, meta_rel, meta_rels, parse_meta_page, parse_meta_record,
};
use crate::database::{
    data_ok, data_pages, in_use_of, lemma_data_page_private, lemma_meta_changed,
    lemma_same_directories, meta_ok, mirrors_upto, pages_after, same_directories, slot_def,
    slot_live, slot_meta, slot_ok, slot_owns, slots_apart, table_specs, valid, with_offsets,
    Database, DatabaseSpec, TableSpec,
};
use crate::layout::{
    all_zero, grown, has_page, i32_bytes, lemma_be_round_trip, lemma_grown_page, lemma_grown_same,
    lemma_splice_page, page_of, push_i32, splice, write_into, zeros, PAGE_SIZE, RECORD_COUNT,
    RECORD_LEN,
};
use crate::rows::{lemma_slot_bounds, slot_row, slots_in_page};
use crate::store::written;
use crate::table::CreateTableError;
use vstd::prelude::*;

verus! {

/// Where a row goes.
pub enum InsertPlace {
    /// Into slot `slot` of the data page that record `record` of the meta
    /// page lists.
    Slot { record: int, slot: int },
    /// Into a new data page, listed in record `record` of the meta page.
    NewPage { record: int },
    /// Nowhere: every record lists a page, and every page is full.
    Full,
}

/// The first empty slot of a data page from slot `j` on, or -1 where there
/// is none. A slot is empty when all its bytes are zero.
pub open spec fn first_empty_from(page: Seq<u8>, w: int, j: int) -> int
    decreases slots_in_page(w) - j,
{
    if j >= slots_in_page(w) {
        -1
    } else if all_zero(slot_row(page, w, j)) {
        j
    } else {
        first_empty_from(page, w, j + 1)
    }
}

/// Where a row goes, looking from record `i` of the meta page on: into the
/// first record that is free, or whose data page has an empty slot.
pub open spec fn place_from(img: Seq<u8>, meta: int, w: int, i: int) -> InsertPlace
    decreases 128 - i,
{
    if i >= 128 {
        InsertPlace::Full
    } else {
        let rel = meta_rel(page_of(img, meta), i);
        if rel == 0 {
            InsertPlace::NewPage { record: i }
        } else {
            let j = first_empty_from(page_of(img, meta + rel), w, 0);
            if j >= 0 {
                InsertPlace::Slot { record: i, slot: j }
            } else {
                place_from(img, meta, w, i + 1)
            }
        }
    }
}

/// Where a row of the table goes.
pub open spec fn insert_place(img: Seq<u8>, t: TableSpec) -> InsertPlace {
    place_from(img, t.meta_page, t.row_len, 0)
}

/// The file after an insert. An unknown table is `TableNotFound`; a row of
/// another length than the table's is `InvalidArgument`. Into an empty slot
/// the row is written as it is. For a new page the smallest free page is
/// taken: the file grows to hold it, the page gets the row and zeros after
/// it, and the free meta record gets the page's number relative to the meta
/// page. With no place, or no free page, the result is `StorageFull`; a page
/// that the machine cannot address is `Io`.
pub open spec fn insert_result(db: DatabaseSpec, name: Seq<char>, row: Seq<u8>) -> Result<
    Seq<u8>,
    CreateTableError,
> {
    match db.find(name) {
        None => Err(CreateTableError::TableNotFound),
        Some(t) => if row.len() != t.row_len {
            Err(CreateTableError::InvalidArgument)
        } else {
            match insert_place(db.image, t) {
                InsertPlace::Full => Err(CreateTableError::StorageFull),
                InsertPlace::Slot { record, slot } => Ok(
                    splice(
                        db.image,
                        (t.meta_page + meta_rel(page_of(db.image, t.meta_page), record)) * 4096 + slot
                            * t.row_len,
                        row,
                    ),
                ),
                InsertPlace::NewPage { record } => if none_free(db.in_use, 1) {
                    Err(CreateTableError::StorageFull)
                } else if (lowest_free(db.in_use) + 1) * 4096 > usize::MAX {
                    Err(CreateTableError::Io)
                } else {
                    Ok(
                        written(
                            written(db.image, lowest_free(db.in_use), 0, row + zeros(4096 - row.len())),
                            t.meta_page,
                            record * 32,
                            i32_bytes(lowest_free(db.in_use) - t.meta_page),
                        ),
                    )
                },
            }
        },
    }
}

/// The handle's list after the data pages of the table of the given name
/// were listed anew from the meta page that the file `image` holds for it.
pub open spec fn relisted(db: DatabaseSpec, name: Seq<char>, image: Seq<u8>) -> Seq<TableSpec> {
    let t = db.find(name)->0;
    db.tables.update(db.position(name), with_offsets(t, meta_rels(page_of(image, t.meta_page), 128)))
}

/// Whether the `w` bytes at `at` are all zero.
pub(crate) fn is_empty_row(page: &[u8], at: usize, w: usize) -> (b: bool)
    requires
        at + w <= page@.len(),
    ensures
        b == all_zero(page@.subrange(at as int, at + w)),
{
    let total = page.len();
    let ghost row = page@.subrange(at as int, at + w);
    let mut k: usize = 0;
    while k < w
        invariant
            k <= w,
            at + w <= total == page@.len(),
            row == page@.subrange(at as int, at + w),
            forall|x: int| 0 <= x < k ==> row[x] == 0,
        decreases w - k,
    {
        if page[at + k] != 0 {
            assert(row[k as int] != 0);
            return false;
        }
        k += 1;
    }
    true
}

/// Where a row goes, as the search finds it.
pub enum Place {
    /// Into slot `slot` of data page `page`, which record `record` lists.
    Slot { record: usize, slot: usize, page: i32 },
    NewPage { record: usize },
    Full,
}

impl View for Place {
    type V = InsertPlace;

    open spec fn view(&self) -> InsertPlace {
        match *self {
            Place::Slot { record, slot, page: _ } => InsertPlace::Slot {
                record: record as int,
                slot: slot as int,
            },
            Place::NewPage { record } => InsertPlace::NewPage { record: record as int },
            Place::Full => InsertPlace::Full,
        }
    }
}

/// The first empty slot of a data page, if it has one.
fn find_empty_slot(page: &[u8], w: usize) -> (r: Option<usize>)
    requires
        page@.len() == 4096,
        1 <= w <= 4096,
    ensures
        match r {
            Some(j) => j == first_empty_from(page@, w as int, 0) && j < slots_in_page(w as int),
            None => first_empty_from(page@, w as int, 0) == -1,
        },
{
    let slots: usize = 4096 / w;
    let mut j: usize = 0;
    let mut at: usize = 0;
    while j < slots
        invariant
            j <= slots,
            at == j * w,
            1 <= w <= 4096,
            slots == slots_in_page(w as int),
            page@.len() == 4096,
            first_empty_from(page@, w as int, 0) == first_empty_from(page@, w as int, j as int),
        decreases slots - j,
    {
        proof {
            lemma_slot_bounds(w as int, j as int);
        }
        if is_empty_row(page, at, w) {
            return Some(j);
        }
        j += 1;
        at += w;
    }
    None
}

/// Where a row goes in the table with the given meta page.
fn locate(store: &crate::store::PageStore, def: Ghost<int>, meta: i32, w: usize) -> (place: Place)
    requires
        has_page(store@, meta as int),
        meta_ok(store@, def@, meta as int),
        1 <= w <= 4096,
    ensures
        place@ == place_from(store@, meta as int, w as int, 0),
        match place {
            Place::Slot { record, slot, page } => record < 128 && slot < slots_in_page(w as int)
                && meta_rel(page_of(store@, meta as int), record as int) != 0 && page == meta + meta_rel(
                page_of(store@, meta as int),
                record as int,
            ),
            Place::NewPage { record } => record < 128 && meta_rel(
                page_of(store@, meta as int),
                record as int,
            ) == 0,
            Place::Full => true,
        },
{
    let ghost img = store@;
    let meta_page = match store.read_page(meta) {
        Ok(page) => page,
        Err(_) => {
            return Place::Full;
        },
    };
    let mut i: usize = 0;
    while i < RECORD_COUNT
        invariant
            i <= 128,
            img == store@,
            has_page(img, meta as int),
            meta_ok(img, def@, meta as int),
            1 <= w <= 4096,
            meta_page@ == page_of(img, meta as int),
            place_from(img, meta as int, w as int, 0) == place_from(img, meta as int, w as int, i as int),
        decreases 128 - i,
    {
        let rel = parse_meta_record(meta_page.as_slice(), i);
        if rel == 0 {
            return Place::NewPage { record: i };
        }
        assert(data_ok(img, def@, meta + rel));
        let page = match store.read_page(meta + rel) {
            Ok(page) => page,
            Err(_) => {
                return Place::Full;
            },
        };
        match find_empty_slot(page.as_slice(), w) {
            Some(j) => {
                return Place::Slot { record: i, slot: j, page: meta + rel };
            },
            None => {},
        }
        i += 1;
    }
    Place::Full
}

/// A row written into a slot of a data page of a table keeps the database
/// valid, with the same tables and the same pages in use.
pub proof fn lemma_insert_slot(
    img: Seq<u8>,
    s0: int,
    i: int,
    at: int,
    row: Seq<u8>,
    tables: Seq<TableSpec>,
)
    requires
        valid(img),
        0 <= s0 < 128,
        slot_live(img, s0),
        0 <= i < 128,
        meta_rel(page_of(img, slot_meta(img, s0)), i) != 0,
        0 <= at,
        at + row.len() <= 4096,
    ensures
        ({
            let p = slot_meta(img, s0) + meta_rel(page_of(img, slot_meta(img, s0)), i);
            let fin = splice(img, p * 4096 + at, row);
            &&& has_page(img, p)
            &&& 1 <= p <= i32::MAX
            &&& written(img, p, at, row) == fin
            &&& page_of(fin, slot_meta(img, s0)) == page_of(img, slot_meta(img, s0))
            &&& valid(fin)
            &&& in_use_of(fin) == in_use_of(img)
            &&& mirrors_upto(img, tables, 128) ==> mirrors_upto(fin, tables, 128)
        }),
{
    let p = slot_meta(img, s0) + meta_rel(page_of(img, slot_meta(img, s0)), i);
    let fin = splice(img, p * 4096 + at, row);
    lemma_data_page_private(img, s0, i, s0);
    lemma_grown_same(img, p);
    assert(same_directories(img, fin)) by {
        lemma_splice_page(img, p, at, row, 0);
        assert forall|s: int| 0 <= s < 128 && #[trigger] slot_live(img, s) implies page_of(
            fin,
            slot_def(img, s),
        ) == page_of(img, slot_def(img, s)) && page_of(fin, slot_meta(img, s)) == page_of(
            img,
            slot_meta(img, s),
        ) by {
            assert(slot_ok(img, s));
            lemma_data_page_private(img, s0, i, s);
            lemma_splice_page(img, p, at, row, slot_def(img, s));
            lemma_splice_page(img, p, at, row, slot_meta(img, s));
        }
    }
    lemma_same_directories(img, fin, tables);
    assert(page_of(fin, slot_meta(img, s0)) == page_of(img, slot_meta(img, s0)));
}

/// The file after page `p` was written and record `i` of the meta page of
/// the table in header slot `s0` was pointed at it.
pub open spec fn with_new_page(img: Seq<u8>, s0: int, i: int, p: int, buf: Seq<u8>) -> Seq<u8> {
    written(written(img, p, 0, buf), slot_meta(img, s0), i * 32, i32_bytes(p - slot_meta(img, s0)))
}

/// What the file holds after a page was written and listed in record `i` of
/// a meta page: the page, the meta page with that record set, and every
/// other page as it was.
pub proof fn lemma_new_page(img: Seq<u8>, s0: int, i: int, p: int, buf: Seq<u8>)
    requires
        has_page(img, slot_meta(img, s0)),
        0 <= i < 128,
        0 <= p <= i32::MAX,
        slot_meta(img, s0) <= i32::MAX,
        p != slot_meta(img, s0),
        buf.len() == 4096,
    ensures
        ({
            let meta = slot_meta(img, s0);
            let img2 = with_new_page(img, s0, i, p, buf);
            &&& img2.len() >= img.len()
            &&& has_page(written(img, p, 0, buf), meta)
            &&& has_page(img2, p)
            &&& has_page(img2, meta)
            &&& page_of(img2, p) == buf
            &&& page_of(img2, meta) == splice(page_of(img, meta), i * 32, i32_bytes(p - meta))
            &&& forall|q: int|
                has_page(img, q) && q != p && q != meta ==> has_page(img2, q) && #[trigger] page_of(img2, q)
                    == page_of(img, q)
            &&& forall|j: int|
                0 <= j < 128 ==> #[trigger] meta_rel(page_of(img2, meta), j) == if j == i {
                    p - meta
                } else {
                    meta_rel(page_of(img, meta), j)
                }
        }),
{
    let meta = slot_meta(img, s0);
    let mp = page_of(img, meta);
    let rel_bytes = i32_bytes(p - meta);
    let g = grown(img, (p + 1) * 4096);
    let img1 = written(img, p, 0, buf);
    let img2 = with_new_page(img, s0, i, p, buf);
    let mp2 = page_of(img2, meta);
    lemma_be_round_trip(p - meta);
    assert(has_page(g, p));
    assert forall|q: int| has_page(img, q) && q != p implies #[trigger] page_of(img1, q) == page_of(img, q)
        && has_page(img1, q) by {
        lemma_grown_page(img, (p + 1) * 4096, q);
        lemma_splice_page(g, p, 0, buf, q);
    }
    lemma_splice_page(g, p, 0, buf, p);
    assert(page_of(img1, p) =~= buf);
    assert(has_page(img1, p));
    assert(has_page(img1, meta));
    lemma_grown_same(img1, meta);
    assert(img2 == splice(img1, meta * 4096 + i * 32, rel_bytes));
    assert forall|q: int| has_page(img1, q) && q != meta implies #[trigger] page_of(img2, q) == page_of(
        img1,
        q,
    ) by {
        lemma_splice_page(img1, meta, i * 32, rel_bytes, q);
    }
    lemma_splice_page(img1, meta, i * 32, rel_bytes, meta);
    assert(mp2 == splice(mp, i * 32, rel_bytes));
    assert(rel_bytes.subrange(0, 4) =~= rel_bytes);
    assert forall|j: int| 0 <= j < 128 implies #[trigger] meta_rel(mp2, j) == if j == i {
        p - meta
    } else {
        meta_rel(mp, j)
    } by {
        lemma_meta_rel_splice(mp, i, rel_bytes, j);
    }
}

/// A free page written and listed in a free record of the meta page of a
/// table keeps the database valid; the page is in use after it, and the
/// table has the data pages that its meta page now lists.
pub proof fn lemma_insert_page(
    img: Seq<u8>,
    s0: int,
    i: int,
    p: int,
    buf: Seq<u8>,
    tables: Seq<TableSpec>,
    k: int,
)
    requires
        valid(img),
        0 <= s0 < 128,
        slot_live(img, s0),
        0 <= i < 128,
        meta_rel(page_of(img, slot_meta(img, s0)), i) == 0,
        1 <= p <= i32::MAX,
        !in_use_of(img).contains(p),
        buf.len() == 4096,
        mirrors_upto(img, tables, 128),
        0 <= k < tables.len(),
        tables[k].slot == s0,
    ensures
        ({
            let meta = slot_meta(img, s0);
            let img2 = with_new_page(img, s0, i, p, buf);
            &&& has_page(written(img, p, 0, buf), meta)
            &&& has_page(img2, meta)
            &&& valid(img2)
            &&& in_use_of(img2) == in_use_of(img).insert(p)
            &&& mirrors_upto(
                img2,
                tables.update(k, with_offsets(tables[k], meta_rels(page_of(img2, meta), 128))),
                128,
            )
        }),
{
    let meta = slot_meta(img, s0);
    let def = slot_def(img, s0);
    let mp = page_of(img, meta);
    let rel_bytes = i32_bytes(p - meta);
    let g = grown(img, (p + 1) * 4096);
    let img1 = written(img, p, 0, buf);
    let img2 = with_new_page(img, s0, i, p, buf);
    let mp2 = page_of(img2, meta);
    assert(slot_ok(img, s0));
    assert(slot_owns(img, s0, def) && slot_owns(img, s0, meta));
    assert(in_use_of(img).contains(def) && in_use_of(img).contains(meta));
    lemma_new_page(img, s0, i, p, buf);
    assert(page_of(img2, 0) == page_of(img, 0));
    assert forall|s: int| 0 <= s < 128 && #[trigger] slot_live(img, s) implies page_of(
        img2,
        slot_def(img, s),
    ) == page_of(img, slot_def(img, s)) && (s != s0 ==> page_of(img2, slot_meta(img, s)) == page_of(
        img,
        slot_meta(img, s),
    )) by {
        assert(slot_ok(img, s));
        assert(slot_owns(img, s, slot_def(img, s)) && slot_owns(img, s, slot_meta(img, s)));
        assert(in_use_of(img).contains(slot_def(img, s)));
        assert(in_use_of(img).contains(slot_meta(img, s)));
        if s != s0 {
            assert(slots_apart(img, s, s0));
        }
    }
    assert forall|j: int| 0 <= j < 128 && #[trigger] meta_rel(mp2, j) != 0 implies data_ok(
        img2,
        def,
        meta + meta_rel(mp2, j),
    ) by {
        if j != i {
            assert(data_ok(img, def, meta + meta_rel(mp, j)));
        }
    }
    assert forall|j: int, k: int|
        0 <= j < k < 128 && #[trigger] meta_rel(mp2, j) != 0 implies meta_rel(mp2, j) != #[trigger] meta_rel(
        mp2,
        k,
    ) by {
        if j != i && k != i {
            assert(meta_rel(mp, j) != meta_rel(mp, k));
        } else if j == i {
            if meta_rel(mp, k) != 0 {
                assert(data_pages(mp, meta).contains(meta + meta_rel(mp, k)));
                assert(slot_owns(img, s0, meta + meta_rel(mp, k)));
            }
        } else {
            assert(data_pages(mp, meta).contains(meta + meta_rel(mp, j)));
            assert(slot_owns(img, s0, meta + meta_rel(mp, j)));
        }
    }
    assert forall|q: int| #[trigger] data_pages(mp2, meta).contains(q) implies data_pages(mp, meta).contains(
        q,
    ) || !in_use_of(img).contains(q) by {
        let j = choose|j: int| 0 <= j < 128 && #[trigger] meta_rel(mp2, j) != 0 && q == meta + meta_rel(mp2, j);
        if j != i {
            assert(meta_rel(mp, j) != 0 && q == meta + meta_rel(mp, j));
        }
    }
    lemma_meta_changed(img, img2, s0, tables, k);
    assert(in_use_of(img).insert(p) =~= pages_after(in_use_of(img), mp, mp2, meta)) by {
        assert forall|q: int| in_use_of(img).insert(p).contains(q) == pages_after(
            in_use_of(img),
            mp,
            mp2,
            meta,
        ).contains(q) by {
            if data_pages(mp, meta).contains(q) {
                let j = choose|j: int| 0 <= j < 128 && #[trigger] meta_rel(mp, j) != 0 && q == meta + meta_rel(mp, j);
                assert(meta_rel(mp2, j) != 0 && q == meta + meta_rel(mp2, j));
                assert(slot_owns(img, s0, q));
            }
            if q == p {
                assert(meta_rel(mp2, i) != 0 && q == meta + meta_rel(mp2, i));
            }
            if data_pages(mp2, meta).contains(q) {
                let j = choose|j: int|
                    0 <= j < 128 && #[trigger] meta_rel(mp2, j) != 0 && q == meta + meta_rel(mp2, j);
                if j != i {
                    assert(meta_rel(mp, j) != 0 && q == meta + meta_rel(mp, j));
                    assert(slot_owns(img, s0, q));
                }
            }
        }
    }
}

impl Database {
    /// Replaces the list of data pages of table `k` of the handle's list.
    pub(crate) fn set_offsets(&mut self, k: usize, rels: Vec<i32>)
        requires
            k < old(self).header_table@.len(),
        ensures
            final(self).store == old(self).store,
            final(self).in_use_pages == old(self).in_use_pages,
            table_specs(final(self).header_table@) == table_specs(old(self).header_table@).update(
                k as int,
                with_offsets(old(self).header_table@[k as int]@, crate::catalog::rel_ints(rels@)),
            ),
    {
        let ghost before = table_specs(self.header_table@);
        let mut t = self.header_table.remove(k);
        t.table_offsets = rels;
        self.header_table.insert(k, t);
        assert(table_specs(self.header_table@) =~= before.update(
            k as int,
            with_offsets(old(self).header_table@[k as int]@, crate::catalog::rel_ints(rels@)),
        ));
    }

    /// Puts a row into the table: into the first empty slot of its data
    /// pages, in the order of the meta records, or into a new data page at
    /// the first free record. On an error the database is unchanged.
    pub fn insert(&mut self, table_name: &str, data: &[u8]) -> (r: Result<(), CreateTableError>)
        requires
            old(self).wf(),
        ensures
            final(self).wf(),
            match insert_result(old(self)@, table_name@, data@) {
                Ok(image) => r == Ok::<(), CreateTableError>(()) && final(self)@.image == image
                    && final(self)@.tables == relisted(old(self)@, table_name@, image),
                Err(e) => r == Err::<(), CreateTableError>(e) && final(self)@ == old(self)@,
            },
    {
        let info = match self.table_info(table_name) {
            Ok(info) => info,
            Err(e) => {
                return Err(e);
            },
        };
        let w: usize = info.row_len as usize;
        if data.len() != w {
            return Err(CreateTableError::InvalidArgument);
        }
        proof {
            self.lemma_view();
        }
        let meta = info.meta_page;
        let ghost s0 = info.slot as int;
        let ghost img = self@.image;
        let ghost tables = self@.tables;
        let ghost mp = page_of(img, meta as int);
        match locate(&self.store, Ghost(info.def_page as int), meta, w) {
            Place::Full => Err(CreateTableError::StorageFull),
            Place::Slot { record, slot, page } => {
                proof {
                    lemma_slot_bounds(w as int, slot as int);
                    lemma_insert_slot(img, s0, record as int, slot * w, data@, tables);
                }
                proof {
                    self.store.lemma_len();
                }
                match self.store.write_at(page, slot * w, data) {
                    Ok(()) => {},
                    Err(e) => {
                        return Err(e);
                    },
                }
                proof {
                    self.lemma_view();
                    assert(tables =~= relisted(old(self)@, table_name@, self.store@));
                }
                Ok(())
            },
            Place::NewPage { record } => {
                let p = match self.in_use_pages.allocate() {
                    Ok(p) => p,
                    Err(e) => {
                        return Err(e);
                    },
                };
                proof {
                    lemma_first_free(self.in_use_pages@, 1, p as int);
                }
                let mut buf: Vec<u8> = vec![0u8; PAGE_SIZE];
                write_into(&mut buf, 0, data);
                assert(buf@ =~= data@ + zeros(4096 - data@.len()));
                proof {
                    lemma_insert_page(img, s0, record as int, p as int, buf@, tables, info.index as int);
                }
                match self.store.write_at(p, 0, buf.as_slice()) {
                    Ok(()) => {},
                    Err(e) => {
                        proof {
                            self.lemma_view();
                        }
                        return Err(e);
                    },
                }
                proof {
                    self.store.lemma_len();
                }
                let mut rel_bytes: Vec<u8> = Vec::new();
                push_i32(&mut rel_bytes, p - meta);
                assert(rel_bytes@ =~= i32_bytes(p - meta));
                match self.store.write_at(meta, record * RECORD_LEN, rel_bytes.as_slice()) {
                    Ok(()) => {},
                    Err(e) => {
                        return Err(e);
                    },
                }
                self.in_use_pages.mark(p);
                let new_meta = match self.store.read_page(meta) {
                    Ok(page) => page,
                    Err(e) => {
                        return Err(e);
                    },
                };
                let rels = parse_meta_page(new_meta.as_slice());
                self.set_offsets(info.index, rels);
                proof {
                    self.lemma_view();
                }
                Ok(())
            },
        }
    }
}

} // verus!
