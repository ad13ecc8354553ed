//! The database handle: the file, the in-memory mirror of its catalog, and
//! the pages in use; what makes a file a valid database, and how one is
//! opened.

use crate::allocator::PageAllocator;
use crate::catalog::{
    def_columns, def_ok, header_rec, meta_rel, meta_rels, parse_header_record, parse_meta_page,
    parse_meta_record, parse_row_len, rec_def, rec_live, rec_meta, rec_name, rel_ints, same_text,
    total_size,
};
use crate::layout::{has_page, page_of, zeros, PAGE_SIZE, RECORD_COUNT};
use crate::store::PageStore;
use crate::table::CreateTableError;
use vstd::prelude::*;

verus! {

// ----------------------------------------------------------------------
// What a file says of its tables

/// Header slot `s` of the file names a table.
pub open spec fn slot_live(img: Seq<u8>, s: int) -> bool {
    rec_live(header_rec(img, s))
}

/// The name of the table in header slot `s`.
pub open spec fn slot_name(img: Seq<u8>, s: int) -> Seq<char> {
    rec_name(header_rec(img, s))
}

/// The definition page of the table in header slot `s`.
pub open spec fn slot_def(img: Seq<u8>, s: int) -> int {
    rec_def(header_rec(img, s))
}

/// The meta page of the table in header slot `s`.
pub open spec fn slot_meta(img: Seq<u8>, s: int) -> int {
    rec_meta(header_rec(img, s))
}

/// The data pages that a meta page at page number `meta` lists.
pub open spec fn data_pages(page: Seq<u8>, meta: int) -> Set<int> {
    Set::new(
        |p: int| exists|i: int| 0 <= i < 128 && #[trigger] meta_rel(page, i) != 0 && p == meta + meta_rel(page, i),
    )
}

/// Page `p` belongs to the table in header slot `s`: it is its definition
/// page, its meta page or one of its data pages.
pub open spec fn slot_owns(img: Seq<u8>, s: int, p: int) -> bool {
    ||| p == slot_def(img, s)
    ||| p == slot_meta(img, s)
    ||| data_pages(page_of(img, slot_meta(img, s)), slot_meta(img, s)).contains(p)
}

/// A data page number is in order: a page of the file other than the header
/// page and the table's definition page.
pub open spec fn data_ok(img: Seq<u8>, def: int, p: int) -> bool {
    1 <= p <= i32::MAX && has_page(img, p) && p != def
}

/// The meta page at page number `meta` is in order: each record that is not
/// free gives a data page in order, and no two records give the same page.
pub open spec fn meta_ok(img: Seq<u8>, def: int, meta: int) -> bool {
    let page = page_of(img, meta);
    &&& forall|i: int|
        0 <= i < 128 && #[trigger] meta_rel(page, i) != 0 ==> data_ok(img, def, meta + meta_rel(page, i))
    &&& forall|i: int, j: int|
        0 <= i < j < 128 && #[trigger] meta_rel(page, i) != 0 ==> meta_rel(page, i)
            != #[trigger] meta_rel(page, j)
}

/// No data page that the meta page lists is in `used`.
pub open spec fn meta_clear(page: Seq<u8>, meta: int, used: Set<int>) -> bool {
    forall|i: int|
        0 <= i < 128 && #[trigger] meta_rel(page, i) != 0 ==> !used.contains(meta + meta_rel(page, i))
}

/// The table in header slot `s` is in order: a name of at most 23 bytes, a
/// definition page and a meta page of the file that differ and are not the
/// header page, and both directories in order.
pub open spec fn slot_ok(img: Seq<u8>, s: int) -> bool {
    let def = slot_def(img, s);
    let meta = slot_meta(img, s);
    &&& header_rec(img, s)[0] <= 23
    &&& 1 <= def
    &&& 1 <= meta
    &&& def != meta
    &&& has_page(img, def)
    &&& has_page(img, meta)
    &&& def_ok(page_of(img, def))
    &&& meta_ok(img, def, meta)
}

/// The tables in header slots `s` and `t` have different names and share no
/// page.
pub open spec fn slots_apart(img: Seq<u8>, s: int, t: int) -> bool {
    &&& slot_name(img, s) != slot_name(img, t)
    &&& forall|p: int| !(#[trigger] slot_owns(img, s, p) && slot_owns(img, t, p))
}

/// The tables in the header slots before `n` are in order and apart.
pub open spec fn valid_upto(img: Seq<u8>, n: int) -> bool {
    &&& has_page(img, 0)
    &&& forall|s: int| 0 <= s < n && #[trigger] slot_live(img, s) ==> slot_ok(img, s)
    &&& forall|s: int, t: int|
        0 <= s < n && 0 <= t < n && s != t && #[trigger] slot_live(img, s) && #[trigger] slot_live(
            img,
            t,
        ) ==> slots_apart(img, s, t)
}

/// The file is a valid database: it holds the header page, every table that
/// the header names is in order, and no two tables share a name or a page.
pub open spec fn valid(img: Seq<u8>) -> bool {
    valid_upto(img, 128)
}

/// The header page and the pages of the tables in the header slots before
/// `n`.
pub open spec fn pages_before(img: Seq<u8>, n: int) -> Set<int> {
    Set::new(
        |p: int| p == 0 || exists|s: int| 0 <= s < n && slot_live(img, s) && #[trigger] slot_owns(img, s, p),
    )
}

/// The pages that a file has in use: the header page and every page of every
/// table.
pub open spec fn in_use_of(img: Seq<u8>) -> Set<int> {
    pages_before(img, 128)
}

/// What the handle knows of a table, as plain values.
pub struct TableSpec {
    pub name: Seq<char>,
    pub def_page: int,
    pub meta_page: int,
    /// The relative numbers of the data pages, in the order of the meta
    /// records.
    pub offsets: Seq<int>,
    /// The header slot that names the table.
    pub slot: int,
    pub row_len: int,
}

/// What the file says of the table in header slot `s`.
pub open spec fn entry_of(img: Seq<u8>, s: int) -> TableSpec {
    TableSpec {
        name: slot_name(img, s),
        def_page: slot_def(img, s),
        meta_page: slot_meta(img, s),
        offsets: meta_rels(page_of(img, slot_meta(img, s)), 128),
        slot: s,
        row_len: total_size(def_columns(page_of(img, slot_def(img, s)))),
    }
}

// ----------------------------------------------------------------------
// The handle

/// What the handle knows of a table.
#[derive(Debug)]
pub struct HeaderMeta {
    pub name: String,
    pub col_def_offset: i32,
    pub meta_offset: i32,
    /// Relative to the meta page.
    pub table_offsets: Vec<i32>,
    pub header_record_offset: u8,
    pub row_len: u16,
}

impl View for HeaderMeta {
    type V = TableSpec;

    open spec fn view(&self) -> TableSpec {
        TableSpec {
            name: self.name@,
            def_page: self.col_def_offset as int,
            meta_page: self.meta_offset as int,
            offsets: rel_ints(self.table_offsets@),
            slot: self.header_record_offset as int,
            row_len: self.row_len as int,
        }
    }
}

/// The views of a list of tables.
pub open spec fn table_specs(tables: Seq<HeaderMeta>) -> Seq<TableSpec> {
    tables.map_values(|t: HeaderMeta| t@)
}

/// A database: the file, the mirror of its catalog and the pages in use.
pub struct Database {
    pub(crate) store: PageStore,
    pub(crate) header_table: Vec<HeaderMeta>,
    pub(crate) in_use_pages: PageAllocator,
}

/// A database as plain values.
pub struct DatabaseSpec {
    /// The bytes of the file.
    pub image: Seq<u8>,
    /// The tables that the handle knows.
    pub tables: Seq<TableSpec>,
    /// The pages in use.
    pub in_use: Set<int>,
}

/// The tables stand in the order of their header slots.
pub open spec fn by_slot(tables: Seq<TableSpec>) -> bool {
    forall|j: int, k: int|
        0 <= j < k < tables.len() ==> (#[trigger] tables[j]).slot < (#[trigger] tables[k]).slot
}

/// The tables mirror the header slots before `n`: each is what the file says
/// in its slot, no slot has two, and every slot that names a table has one.
pub open spec fn mirrors_upto(img: Seq<u8>, tables: Seq<TableSpec>, n: int) -> bool {
    &&& forall|k: int|
        0 <= k < tables.len() ==> {
            let t = #[trigger] tables[k];
            0 <= t.slot < n && slot_live(img, t.slot) && t == entry_of(img, t.slot)
        }
    &&& forall|j: int, k: int|
        0 <= j < k < tables.len() ==> (#[trigger] tables[j]).slot != (#[trigger] tables[k]).slot
    &&& forall|s: int|
        0 <= s < n && #[trigger] slot_live(img, s) ==> exists|k: int|
            0 <= k < tables.len() && (#[trigger] tables[k]).slot == s
}

impl DatabaseSpec {
    /// The file is a valid database, the tables mirror its header and the
    /// pages in use are those that the file has in use.
    pub open spec fn wf(self) -> bool {
        &&& valid(self.image)
        &&& mirrors_upto(self.image, self.tables, 128)
        &&& self.in_use == in_use_of(self.image)
    }

    /// Where a table of the given name stands in the handle's list, if the
    /// handle knows one.
    pub open spec fn position(self, name: Seq<char>) -> int {
        choose|k: int| 0 <= k < self.tables.len() && (#[trigger] self.tables[k]).name == name
    }

    /// The table of the given name, if the handle knows one.
    pub open spec fn find(self, name: Seq<char>) -> Option<TableSpec> {
        if exists|k: int| 0 <= k < self.tables.len() && (#[trigger] self.tables[k]).name == name {
            Some(self.tables[self.position(name)])
        } else {
            None
        }
    }
}

impl View for Database {
    type V = DatabaseSpec;

    closed spec fn view(&self) -> DatabaseSpec {
        DatabaseSpec {
            image: self.store@,
            tables: table_specs(self.header_table@),
            in_use: self.in_use_pages@,
        }
    }
}

/// The table of the given name in a list of tables; `TableNotFound` when
/// the list holds none.
pub fn check_table_exists<'h>(header_table: &'h Vec<HeaderMeta>, table_name: &str) -> (r: Result<
    &'h HeaderMeta,
    CreateTableError,
>)
    ensures
        match r {
            Ok(meta) => exists|k: int|
                0 <= k < header_table@.len() && #[trigger] header_table@[k] == *meta && meta.name@
                    == table_name@ && forall|j: int|
                    0 <= j < k ==> (#[trigger] header_table@[j]).name@ != table_name@,
            Err(e) => e == CreateTableError::TableNotFound && forall|k: int|
                0 <= k < header_table@.len() ==> (#[trigger] header_table@[k]).name@ != table_name@,
        },
{
    let mut k: usize = 0;
    while k < header_table.len()
        invariant
            k <= header_table@.len(),
            forall|j: int| 0 <= j < k ==> (#[trigger] header_table@[j]).name@ != table_name@,
        decreases header_table@.len() - k,
    {
        if same_text(header_table[k].name.as_str(), table_name) {
            return Ok(&header_table[k]);
        }
        k += 1;
    }
    Err(CreateTableError::TableNotFound)
}

/// Reads the meta page of a table while a file is opened: lists its data
/// pages and marks them in use. `CorruptData` where the page is not in
/// order or lists a page that is in use already.
fn load_meta(store: &PageStore, def: i32, meta: i32, in_use: &mut PageAllocator) -> (r: Result<
    Vec<i32>,
    CreateTableError,
>)
    requires
        has_page(store@, meta as int),
    ensures
        match r {
            Ok(rels) => {
                let page = page_of(store@, meta as int);
                &&& rel_ints(rels@) == meta_rels(page, 128)
                &&& meta_ok(store@, def as int, meta as int)
                &&& meta_clear(page, meta as int, old(in_use)@)
                &&& final(in_use)@ == old(in_use)@.union(data_pages(page, meta as int))
            },
            Err(e) => e == CreateTableError::CorruptData && !(meta_ok(store@, def as int, meta as int)
                && meta_clear(page_of(store@, meta as int), meta as int, old(in_use)@)),
        },
{
    let page = match store.read_page(meta) {
        Ok(page) => page,
        Err(_) => {
            return Err(CreateTableError::CorruptData);
        },
    };
    let ghost img = store@;
    let ghost used = in_use@;
    let ghost pg = page@;
    let mut i: usize = 0;
    assert(in_use@ =~= used.union(
        Set::new(
            |p: int| exists|j: int| 0 <= j < 0 && #[trigger] meta_rel(pg, j) != 0 && p == meta + meta_rel(pg, j),
        ),
    ));
    while i < RECORD_COUNT
        invariant
            i <= 128,
            pg == page@,
            pg == page_of(img, meta as int),
            pg.len() == 4096,
            img == store@,
            used == old(in_use)@,
            forall|j: int|
                0 <= j < i && #[trigger] meta_rel(pg, j) != 0 ==> data_ok(img, def as int, meta + meta_rel(pg, j))
                    && !used.contains(meta + meta_rel(pg, j)),
            forall|j: int, k: int|
                0 <= j < k < i && #[trigger] meta_rel(pg, j) != 0 ==> meta_rel(pg, j)
                    != #[trigger] meta_rel(pg, k),
            in_use@ == used.union(
                Set::new(
                    |p: int|
                        exists|j: int|
                            0 <= j < i && #[trigger] meta_rel(pg, j) != 0 && p == meta + meta_rel(pg, j),
                ),
            ),
        decreases 128 - i,
    {
        let rel = parse_meta_record(page.as_slice(), i);
        if rel != 0 {
            let abs: i64 = meta as i64 + rel as i64;
            if abs < 1 || abs > i32::MAX as i64 {
                return Err(CreateTableError::CorruptData);
            }
            let abs: i32 = abs as i32;
            if abs == def || !store.holds_page(abs) {
                return Err(CreateTableError::CorruptData);
            }
            if in_use.contains(abs) {
                proof {
                    assert(meta_rel(pg, i as int) != 0 && abs == meta + meta_rel(pg, i as int));
                    if !used.contains(abs as int) {
                        let j = choose|j: int|
                            0 <= j < i && #[trigger] meta_rel(pg, j) != 0 && abs == meta + meta_rel(pg, j);
                        assert(meta_rel(pg, j) == meta_rel(pg, i as int));
                        assert(!meta_ok(img, def as int, meta as int));
                    } else {
                        assert(!meta_clear(pg, meta as int, used));
                    }
                }
                return Err(CreateTableError::CorruptData);
            }
            let ghost before = in_use@;
            in_use.mark(abs);
            proof {
                assert forall|j: int, k: int|
                    0 <= j < k < i + 1 && #[trigger] meta_rel(pg, j) != 0 implies meta_rel(pg, j)
                    != #[trigger] meta_rel(pg, k) by {
                    if k == i {
                        assert(before.contains(meta + meta_rel(pg, j)));
                    }
                }
                assert(in_use@ =~= used.union(
                    Set::new(
                        |p: int|
                            exists|j: int|
                                0 <= j < i + 1 && #[trigger] meta_rel(pg, j) != 0 && p == meta + meta_rel(
                                    pg,
                                    j,
                                ),
                    ),
                ));
            }
        } else {
            assert(in_use@ =~= used.union(
                Set::new(
                    |p: int|
                        exists|j: int|
                            0 <= j < i + 1 && #[trigger] meta_rel(pg, j) != 0 && p == meta + meta_rel(pg, j),
                ),
            ));
        }
        i += 1;
    }
    assert(in_use@ =~= used.union(data_pages(pg, meta as int)));
    Ok(parse_meta_page(page.as_slice()))
}

/// A file in which two header slots name tables that share a page is not valid.
pub proof fn lemma_shared_page(img: Seq<u8>, s: int, t: int, p: int)
    requires
        0 <= s < 128,
        0 <= t < 128,
        s != t,
        slot_live(img, s),
        slot_live(img, t),
        slot_owns(img, s, p),
        slot_owns(img, t, p),
    ensures
        !valid(img),
{
    assert(!slots_apart(img, s, t));
}

/// A file in which two header slots name tables of one name is not valid.
pub proof fn lemma_shared_name(img: Seq<u8>, s: int, t: int)
    requires
        0 <= s < 128,
        0 <= t < 128,
        s != t,
        slot_live(img, s),
        slot_live(img, t),
        slot_name(img, s) == slot_name(img, t),
    ensures
        !valid(img),
{
    assert(!slots_apart(img, s, t));
}

/// A file in which a header slot names a table that owns a page in use by
/// the tables before it, other than the header page, is not valid; nor is
/// one in which it owns the header page.
pub proof fn lemma_page_taken(img: Seq<u8>, s: int, p: int)
    requires
        0 <= s < 128,
        slot_live(img, s),
        slot_owns(img, s, p),
        pages_before(img, s).contains(p),
    ensures
        !valid(img),
{
    if p == 0 {
        if slot_ok(img, s) {
            let def = slot_def(img, s);
            let meta = slot_meta(img, s);
            let page = page_of(img, meta);
            let i = choose|i: int| 0 <= i < 128 && #[trigger] meta_rel(page, i) != 0 && p == meta + meta_rel(page, i);
            assert(data_ok(img, def, meta + meta_rel(page, i)));
        }
    } else {
        let t = choose|t: int| 0 <= t < s && slot_live(img, t) && #[trigger] slot_owns(img, t, p);
        lemma_shared_page(img, s, t, p);
    }
}

/// The second file is at least as long as the first and has the same header
/// page and, for every table, the same definition page and meta page.
pub open spec fn same_directories(img: Seq<u8>, img2: Seq<u8>) -> bool {
    &&& img2.len() >= img.len()
    &&& page_of(img2, 0) == page_of(img, 0)
    &&& forall|s: int|
        0 <= s < 128 && #[trigger] slot_live(img, s) ==> page_of(img2, slot_def(img, s)) == page_of(
            img,
            slot_def(img, s),
        ) && page_of(img2, slot_meta(img, s)) == page_of(img, slot_meta(img, s))
}

/// A file with the directories of a valid database is a valid database with
/// the same tables and the same pages in use.
pub proof fn lemma_same_directories(img: Seq<u8>, img2: Seq<u8>, tables: Seq<TableSpec>)
    requires
        valid(img),
        same_directories(img, img2),
    ensures
        valid(img2),
        in_use_of(img2) == in_use_of(img),
        mirrors_upto(img, tables, 128) ==> mirrors_upto(img2, tables, 128),
        forall|s: int| 0 <= s < 128 ==> #[trigger] header_rec(img2, s) == header_rec(img, s),
{
    assert forall|s: int| 0 <= s < 128 implies #[trigger] header_rec(img2, s) == header_rec(img, s) by {}
    assert forall|s: int| 0 <= s < 128 implies slot_live(img2, s) == #[trigger] slot_live(img, s) by {
        assert(header_rec(img2, s) == header_rec(img, s));
    }
    assert forall|s: int| 0 <= s < 128 && #[trigger] slot_live(img2, s) implies slot_ok(img2, s) && entry_of(
        img2,
        s,
    ) == entry_of(img, s) && (forall|p: int| slot_owns(img2, s, p) == slot_owns(img, s, p)) by {
        assert(header_rec(img2, s) == header_rec(img, s));
        assert(slot_live(img, s));
        assert(slot_ok(img, s));
        let def = slot_def(img, s);
        let meta = slot_meta(img, s);
        let page = page_of(img, meta);
        assert forall|i: int| 0 <= i < 128 && #[trigger] meta_rel(page, i) != 0 implies data_ok(
            img2,
            def,
            meta + meta_rel(page, i),
        ) by {
            assert(data_ok(img, def, meta + meta_rel(page, i)));
        }
    }
    assert forall|s: int, t: int|
        0 <= s < 128 && 0 <= t < 128 && s != t && #[trigger] slot_live(img2, s) && #[trigger] slot_live(
            img2,
            t,
        ) implies slots_apart(img2, s, t) by {
        assert(header_rec(img2, s) == header_rec(img, s));
        assert(header_rec(img2, t) == header_rec(img, t));
        assert(slot_live(img, s) && slot_live(img, t));
        assert(slots_apart(img, s, t));
        assert forall|p: int| !(#[trigger] slot_owns(img2, s, p) && slot_owns(img2, t, p)) by {
            assert(slot_owns(img2, s, p) == slot_owns(img, s, p));
            assert(slot_owns(img2, t, p) == slot_owns(img, t, p));
        }
    }
    assert(in_use_of(img2) =~= in_use_of(img)) by {
        assert forall|p: int| in_use_of(img2).contains(p) == in_use_of(img).contains(p) by {
            if in_use_of(img2).contains(p) && p != 0 {
                let s = choose|s: int| 0 <= s < 128 && slot_live(img2, s) && #[trigger] slot_owns(img2, s, p);
                assert(slot_live(img, s) && slot_owns(img, s, p));
            }
            if in_use_of(img).contains(p) && p != 0 {
                let s = choose|s: int| 0 <= s < 128 && slot_live(img, s) && #[trigger] slot_owns(img, s, p);
                assert(slot_live(img2, s) && slot_owns(img2, s, p));
            }
        }
    }
    if mirrors_upto(img, tables, 128) {
        assert forall|k: int| 0 <= k < tables.len() implies {
            let t = #[trigger] tables[k];
            0 <= t.slot < 128 && slot_live(img2, t.slot) && t == entry_of(img2, t.slot)
        } by {
            assert(slot_live(img, tables[k].slot));
        }
        assert forall|s: int| 0 <= s < 128 && #[trigger] slot_live(img2, s) implies exists|k: int|
            0 <= k < tables.len() && (#[trigger] tables[k]).slot == s by {
            assert(slot_live(img, s));
        }
    }
}

/// In a valid database a data page of a table is a page of the file other
/// than the header page and the definition and meta pages of every table.
pub proof fn lemma_data_page_private(img: Seq<u8>, s0: int, i: int, s: int)
    requires
        valid(img),
        0 <= s0 < 128,
        0 <= s < 128,
        slot_live(img, s0),
        slot_live(img, s),
        0 <= i < 128,
        meta_rel(page_of(img, slot_meta(img, s0)), i) != 0,
    ensures
        ({
            let p = slot_meta(img, s0) + meta_rel(page_of(img, slot_meta(img, s0)), i);
            &&& 1 <= p <= i32::MAX
            &&& has_page(img, p)
            &&& p != slot_def(img, s)
            &&& p != slot_meta(img, s)
        }),
{
    let meta = slot_meta(img, s0);
    let page = page_of(img, meta);
    let p = meta + meta_rel(page, i);
    assert(slot_ok(img, s0));
    assert(data_ok(img, slot_def(img, s0), p));
    assert(data_pages(page, meta).contains(p));
    assert(slot_owns(img, s0, p));
    if s != s0 {
        assert(slots_apart(img, s0, s));
        assert(slot_owns(img, s, slot_def(img, s)));
        assert(slot_owns(img, s, slot_meta(img, s)));
    }
}

/// A table as the handle knows it, with another list of data pages.
pub open spec fn with_offsets(t: TableSpec, offsets: Seq<int>) -> TableSpec {
    TableSpec {
        name: t.name,
        def_page: t.def_page,
        meta_page: t.meta_page,
        offsets,
        slot: t.slot,
        row_len: t.row_len,
    }
}

/// The pages in use after the table with the meta page `old_meta` at page
/// number `meta` got the meta page `new_meta`: its former data pages are
/// free, its present ones are in use.
pub open spec fn pages_after(
    used: Set<int>,
    old_meta: Seq<u8>,
    new_meta: Seq<u8>,
    meta: int,
) -> Set<int> {
    Set::new(
        |p: int|
            (used.contains(p) && !data_pages(old_meta, meta).contains(p)) || data_pages(new_meta, meta).contains(
                p,
            ),
    )
}

/// A change of the meta page of one table that leaves the meta page in order
/// and takes no page of another owner keeps the database valid; the pages in
/// use change by the data pages of that table, and what the file says of the
/// tables changes by the data pages listed for that table.
pub proof fn lemma_meta_changed(
    img: Seq<u8>,
    img2: Seq<u8>,
    s0: int,
    tables: Seq<TableSpec>,
    k: int,
)
    requires
        valid(img),
        0 <= s0 < 128,
        slot_live(img, s0),
        img2.len() >= img.len(),
        page_of(img2, 0) == page_of(img, 0),
        forall|s: int|
            0 <= s < 128 && #[trigger] slot_live(img, s) ==> page_of(img2, slot_def(img, s)) == page_of(
                img,
                slot_def(img, s),
            ),
        forall|s: int|
            0 <= s < 128 && s != s0 && #[trigger] slot_live(img, s) ==> page_of(img2, slot_meta(img, s))
                == page_of(img, slot_meta(img, s)),
        meta_ok(img2, slot_def(img, s0), slot_meta(img, s0)),
        forall|p: int|
            #[trigger] data_pages(page_of(img2, slot_meta(img, s0)), slot_meta(img, s0)).contains(p)
                ==> data_pages(page_of(img, slot_meta(img, s0)), slot_meta(img, s0)).contains(p)
                || !in_use_of(img).contains(p),
        mirrors_upto(img, tables, 128),
        0 <= k < tables.len(),
        tables[k].slot == s0,
    ensures
        valid(img2),
        in_use_of(img2) == pages_after(
            in_use_of(img),
            page_of(img, slot_meta(img, s0)),
            page_of(img2, slot_meta(img, s0)),
            slot_meta(img, s0),
        ),
        entry_of(img2, s0) == with_offsets(
            tables[k],
            meta_rels(page_of(img2, slot_meta(img, s0)), 128),
        ),
        mirrors_upto(img2, tables.update(k, entry_of(img2, s0)), 128),
{
    let meta = slot_meta(img, s0);
    let def = slot_def(img, s0);
    let mp = page_of(img, meta);
    let mp2 = page_of(img2, meta);
    assert forall|s: int| 0 <= s < 128 implies #[trigger] header_rec(img2, s) == header_rec(img, s) by {}
    assert forall|s: int| 0 <= s < 128 implies slot_live(img2, s) == #[trigger] slot_live(img, s) by {
        assert(header_rec(img2, s) == header_rec(img, s));
    }
    assert(slot_ok(img, s0));
    assert(slot_owns(img, s0, def) && slot_owns(img, s0, meta));
    // the other tables are as they were
    assert forall|s: int| 0 <= s < 128 && s != s0 && #[trigger] slot_live(img2, s) implies slot_ok(img2, s)
        && entry_of(img2, s) == entry_of(img, s) && (forall|p: int|
        slot_owns(img2, s, p) == slot_owns(img, s, p)) by {
        assert(header_rec(img2, s) == header_rec(img, s));
        assert(slot_live(img, s));
        assert(slot_ok(img, s));
        let d = slot_def(img, s);
        let m = slot_meta(img, s);
        let page = page_of(img, m);
        assert forall|i: int| 0 <= i < 128 && #[trigger] meta_rel(page, i) != 0 implies data_ok(
            img2,
            d,
            m + meta_rel(page, i),
        ) by {
            assert(data_ok(img, d, m + meta_rel(page, i)));
        }
    }
    // the table itself
    assert(header_rec(img2, s0) == header_rec(img, s0));
    assert(slot_ok(img2, s0));
    assert forall|p: int| slot_owns(img2, s0, p) == (p == def || p == meta || data_pages(mp2, meta).contains(
        p,
    )) by {}
    // a data page of the table is no page of another table, before or after
    assert forall|s: int, p: int|
        0 <= s < 128 && s != s0 && slot_live(img, s) && #[trigger] slot_owns(img, s, p) implies !slot_owns(
        img2,
        s0,
        p,
    ) by {
        assert(slots_apart(img, s, s0));
        assert(in_use_of(img).contains(p));
        if data_pages(mp2, meta).contains(p) {
            assert(data_pages(mp, meta).contains(p) || !in_use_of(img).contains(p));
            assert(slot_owns(img, s0, p));
        } else {
            assert(slot_owns(img, s0, p) || !slot_owns(img2, s0, p));
        }
    }
    assert forall|s: int, t: int|
        0 <= s < 128 && 0 <= t < 128 && s != t && #[trigger] slot_live(img2, s) && #[trigger] slot_live(
            img2,
            t,
        ) implies slots_apart(img2, s, t) by {
        assert(header_rec(img2, s) == header_rec(img, s));
        assert(header_rec(img2, t) == header_rec(img, t));
        assert(slot_live(img, s) && slot_live(img, t));
        assert(slots_apart(img, s, t));
        assert forall|p: int| !(#[trigger] slot_owns(img2, s, p) && slot_owns(img2, t, p)) by {
            if s != s0 && t != s0 {
                assert(slot_owns(img2, s, p) == slot_owns(img, s, p));
                assert(slot_owns(img2, t, p) == slot_owns(img, t, p));
            } else if s == s0 {
                if slot_owns(img2, t, p) {
                    assert(slot_owns(img, t, p));
                }
            } else {
                if slot_owns(img2, s, p) {
                    assert(slot_owns(img, s, p));
                }
            }
        }
    }
    let after = pages_after(in_use_of(img), mp, mp2, meta);
    assert(in_use_of(img2) =~= after) by {
        assert forall|p: int| in_use_of(img2).contains(p) == after.contains(p) by {
            if in_use_of(img2).contains(p) && p != 0 {
                let s = choose|s: int| 0 <= s < 128 && slot_live(img2, s) && #[trigger] slot_owns(img2, s, p);
                if s != s0 {
                    assert(slot_live(img, s) && slot_owns(img, s, p));
                    assert(slots_apart(img, s, s0));
                    assert(!slot_owns(img, s0, p));
                } else if !data_pages(mp2, meta).contains(p) {
                    assert(slot_owns(img, s0, p));
                    if data_pages(mp, meta).contains(p) {
                        let i = choose|i: int| 0 <= i < 128 && #[trigger] meta_rel(mp, i) != 0 && p == meta + meta_rel(mp, i);
                        assert(data_ok(img, def, p));
                    }
                }
            }
            if p == 0 {
                if data_pages(mp, meta).contains(p) {
                    let i = choose|i: int| 0 <= i < 128 && #[trigger] meta_rel(mp, i) != 0 && p == meta + meta_rel(mp, i);
                    assert(data_ok(img, def, p));
                }
            }
            if after.contains(p) && p != 0 {
                if data_pages(mp2, meta).contains(p) {
                    assert(slot_live(img2, s0) && slot_owns(img2, s0, p));
                } else {
                    let s = choose|s: int| 0 <= s < 128 && slot_live(img, s) && #[trigger] slot_owns(img, s, p);
                    assert(slot_live(img2, s) && slot_owns(img2, s, p));
                }
            }
        }
    }
    let updated = tables.update(k, entry_of(img2, s0));
    assert(tables[k] == entry_of(img, s0));
    assert forall|j: int| 0 <= j < updated.len() implies {
        let t = #[trigger] updated[j];
        0 <= t.slot < 128 && slot_live(img2, t.slot) && t == entry_of(img2, t.slot)
    } by {
        if j != k {
            assert(updated[j] == tables[j]);
            assert(slot_live(img, tables[j].slot));
        }
    }
    assert forall|i: int, j: int| 0 <= i < j < updated.len() implies (#[trigger] updated[i]).slot != (
    #[trigger] updated[j]).slot by {
        assert(updated[i].slot == tables[i].slot);
        assert(updated[j].slot == tables[j].slot);
    }
    assert forall|s: int| 0 <= s < 128 && #[trigger] slot_live(img2, s) implies exists|j: int|
        0 <= j < updated.len() && (#[trigger] updated[j]).slot == s by {
        assert(slot_live(img, s));
        let j = choose|j: int| 0 <= j < tables.len() && (#[trigger] tables[j]).slot == s;
        assert(updated[j].slot == s);
    }
}

impl Database {
    /// The handle is in order: see [`DatabaseSpec::wf`].
    pub open spec fn wf(&self) -> bool {
        self@.wf()
    }

    /// Opens the database that a file's bytes hold: parses the catalog and
    /// lists the pages in use. A file shorter than one page is `Io`; one
    /// that is not a valid database is `CorruptData`.
    pub fn open(bytes: Vec<u8>) -> (r: Result<Database, CreateTableError>)
        ensures
            match r {
                Ok(db) => db.wf() && db@.image == bytes@ && by_slot(db@.tables),
                Err(e) => !valid(bytes@) && e == if bytes@.len() < 4096 {
                    CreateTableError::Io
                } else {
                    CreateTableError::CorruptData
                },
            },
    {
        let store = PageStore::new(bytes);
        let page0 = match store.read_page(0) {
            Ok(page) => page,
            Err(_) => {
                return Err(CreateTableError::Io);
            },
        };
        let ghost img = store@;
        let mut tables: Vec<HeaderMeta> = Vec::new();
        let mut in_use = PageAllocator::new();
        let mut s: usize = 0;
        assert(in_use@ =~= pages_before(img, 0));
        while s < RECORD_COUNT
            invariant
                s <= 128,
                img == store@,
                img == bytes@,
                has_page(img, 0),
                page0@ == page_of(img, 0),
                valid_upto(img, s as int),
                mirrors_upto(img, table_specs(tables@), s as int),
                by_slot(table_specs(tables@)),
                in_use@ == pages_before(img, s as int),
            decreases 128 - s,
        {
            let ghost used = in_use@;
            let ghost before = table_specs(tables@);
            match parse_header_record(page0.as_slice(), s) {
                Err(_) => {
                    assert(slot_live(img, s as int) && !slot_ok(img, s as int));
                    return Err(CreateTableError::CorruptData);
                },
                Ok(None) => {
                    assert(!slot_live(img, s as int));
                    assert(pages_before(img, s + 1) =~= pages_before(img, s as int));
                },
                Ok(Some(h)) => {
                    assert(slot_live(img, s as int));
                    let def = h.def_page;
                    let meta = h.meta_page;
                    if def < 1 || meta < 1 || def == meta || !store.holds_page(def)
                        || !store.holds_page(meta) {
                        assert(!slot_ok(img, s as int));
                        return Err(CreateTableError::CorruptData);
                    }
                    match check_table_exists(&tables, h.name.as_str()) {
                        Ok(_) => {
                            proof {
                                let k = choose|k: int|
                                    0 <= k < tables@.len() && (#[trigger] tables@[k]).name@ == h.name@;
                                assert(before[k] == tables@[k]@);
                                lemma_shared_name(img, s as int, before[k].slot);
                            }
                            return Err(CreateTableError::CorruptData);
                        },
                        Err(_) => {},
                    }
                    if in_use.contains(def) {
                        proof {
                            lemma_page_taken(img, s as int, def as int);
                        }
                        return Err(CreateTableError::CorruptData);
                    }
                    if in_use.contains(meta) {
                        proof {
                            lemma_page_taken(img, s as int, meta as int);
                        }
                        return Err(CreateTableError::CorruptData);
                    }
                    in_use.mark(def);
                    in_use.mark(meta);
                    let ghost marked = in_use@;
                    let ghost mp = page_of(img, meta as int);
                    let rels = match load_meta(&store, def, meta, &mut in_use) {
                        Ok(rels) => rels,
                        Err(_) => {
                            proof {
                                if meta_ok(img, def as int, meta as int) {
                                    let i = choose|i: int|
                                        0 <= i < 128 && #[trigger] meta_rel(mp, i) != 0 && marked.contains(
                                            meta + meta_rel(mp, i),
                                        );
                                    let p = meta + meta_rel(mp, i);
                                    assert(data_ok(img, def as int, p));
                                    assert(data_pages(mp, meta as int).contains(p));
                                    lemma_page_taken(img, s as int, p);
                                } else {
                                    assert(!slot_ok(img, s as int));
                                }
                            }
                            return Err(CreateTableError::CorruptData);
                        },
                    };
                    let def_page = match store.read_page(def) {
                        Ok(page) => page,
                        Err(_) => {
                            return Err(CreateTableError::CorruptData);
                        },
                    };
                    let row_len = match parse_row_len(def_page.as_slice()) {
                        Ok(w) => w,
                        Err(_) => {
                            assert(!slot_ok(img, s as int));
                            return Err(CreateTableError::CorruptData);
                        },
                    };
                    let entry = HeaderMeta {
                        name: h.name,
                        col_def_offset: def,
                        meta_offset: meta,
                        table_offsets: rels,
                        header_record_offset: s as u8,
                        row_len,
                    };
                    proof {
                        assert(entry@ == entry_of(img, s as int));
                        assert(slot_ok(img, s as int));
                        assert(table_specs(tables@.push(entry)) =~= before.push(entry@));
                        assert forall|t: int| 0 <= t < s && slot_live(img, t) implies slots_apart(
                            img,
                            t,
                            s as int,
                        ) && slots_apart(img, s as int, t) by {
                            let k = choose|k: int| 0 <= k < before.len() && (#[trigger] before[k]).slot == t;
                            assert(before[k] == tables@[k]@);
                            assert(slot_name(img, t) != slot_name(img, s as int));
                            assert forall|p: int| !(slot_owns(img, t, p) && slot_owns(img, s as int, p)) by {
                                if slot_owns(img, t, p) && slot_owns(img, s as int, p) {
                                    assert(used.contains(p));
                                    assert(marked.contains(p));
                                    if data_pages(mp, meta as int).contains(p) {
                                        let i = choose|i: int|
                                            0 <= i < 128 && #[trigger] meta_rel(mp, i) != 0 && p == meta + meta_rel(
                                                mp,
                                                i,
                                            );
                                        assert(!marked.contains(meta + meta_rel(mp, i)));
                                    }
                                }
                            }
                        }
                        assert(in_use@ =~= pages_before(img, s + 1)) by {
                            assert forall|p: int| in_use@.contains(p) == pages_before(img, s + 1).contains(
                                p,
                            ) by {
                                if in_use@.contains(p) {
                                    if !used.contains(p) {
                                        assert(slot_owns(img, s as int, p));
                                    }
                                }
                                if pages_before(img, s + 1).contains(p) && p != 0 {
                                    let t = choose|t: int|
                                        0 <= t < s + 1 && slot_live(img, t) && #[trigger] slot_owns(img, t, p);
                                    if t < s {
                                        assert(used.contains(p));
                                    }
                                }
                            }
                        }
                    }
                    let ghost e = entry@;
                    tables.push(entry);
                    proof {
                        let after = table_specs(tables@);
                        assert(after =~= before.push(e));
                        assert forall|t: int| 0 <= t < s + 1 && #[trigger] slot_live(img, t) implies exists|
                            k: int,
                        |
                            0 <= k < after.len() && (#[trigger] after[k]).slot == t by {
                            if t == s {
                                assert(after[before.len() as int].slot == t);
                            } else {
                                let k = choose|k: int|
                                    0 <= k < before.len() && (#[trigger] before[k]).slot == t;
                                assert(after[k].slot == t);
                            }
                        }
                        assert forall|k: int| 0 <= k < after.len() implies {
                            let t = #[trigger] after[k];
                            0 <= t.slot < s + 1 && slot_live(img, t.slot) && t == entry_of(img, t.slot)
                        } by {
                            if k < before.len() {
                                assert(after[k] == before[k]);
                            }
                        }
                        assert forall|j: int, k: int| 0 <= j < k < after.len() implies (#[trigger] after[j]).slot
                            < (#[trigger] after[k]).slot by {
                            assert(after[j] == before[j]);
                            if k < before.len() {
                                assert(after[k] == before[k]);
                            }
                        }
                    }
                },
            }
            s += 1;
        }
        Ok(Database { store, header_table: tables, in_use_pages: in_use })
    }

    /// What the handle's view is made of.
    pub(crate) proof fn lemma_view(&self)
        ensures
            self@.image == self.store@,
            self@.tables == table_specs(self.header_table@),
            self@.tables.len() == self.header_table@.len(),
            self@.in_use == self.in_use_pages@,
    {
    }

    /// The bytes of a new database file: one page of zeros.
    pub fn create_database() -> (bytes: Vec<u8>)
        ensures
            bytes@ == zeros(4096),
    {
        let bytes = vec![0u8; PAGE_SIZE];
        assert(bytes@ =~= zeros(4096));
        bytes
    }

    /// Closes the database and gives the bytes of the file as they stand.
    pub fn close(self) -> (bytes: Vec<u8>)
        ensures
            bytes@ == self@.image,
    {
        let Database { store, header_table: _, in_use_pages: _ } = self;
        store.into_bytes()
    }

    /// The bytes of the file as it now stands.
    pub fn image(&self) -> (bytes: &Vec<u8>)
        ensures
            bytes@ == self@.image,
    {
        self.store.as_bytes()
    }

    /// The tables that the handle knows.
    pub fn tables(&self) -> (tables: &Vec<HeaderMeta>)
        ensures
            table_specs(tables@) == self@.tables,
    {
        &self.header_table
    }

    /// Whether page `n` is in use.
    pub fn page_in_use(&self, n: i32) -> (b: bool)
        ensures
            b == self@.in_use.contains(n as int),
    {
        self.in_use_pages.contains(n)
    }
}

} // verus!
