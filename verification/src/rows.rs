//! The row engine: the rows of a table as the file holds them, conditions on
//! rows, and select.

use crate::catalog::{meta_rel, parse_meta_record};
use crate::database::{
    check_table_exists, data_ok, meta_ok, slot_live, slot_ok, slots_apart, table_specs, Database,
    DatabaseSpec, HeaderMeta, TableSpec,
};
use crate::layout::{has_page, page_of, RECORD_COUNT};
use crate::table::{Condition, ConditionSpec, CreateTableError};
use vstd::prelude::*;

verus! {

// ----------------------------------------------------------------------
// Rows and conditions

/// The row slots in a data page of rows `w` bytes wide.
pub open spec fn slots_in_page(w: int) -> int {
    4096int / w
}

/// The row in slot `j` of a data page.
pub open spec fn slot_row(page: Seq<u8>, w: int, j: int) -> Seq<u8> {
    page.subrange(j * w, j * w + w)
}

/// The rows in the first `n` slots of a data page.
pub open spec fn page_rows(page: Seq<u8>, w: int, n: int) -> Seq<Seq<u8>> {
    Seq::new(n as nat, |j: int| slot_row(page, w, j))
}

/// The rows in the data pages that the first `n` records of the meta page
/// list: every slot of each page, empty or not, in the order of the records
/// and of the slots.
pub open spec fn rows_upto(img: Seq<u8>, meta: int, w: int, n: int) -> Seq<Seq<u8>>
    decreases n,
{
    if n <= 0 {
        Seq::empty()
    } else {
        let rel = meta_rel(page_of(img, meta), n - 1);
        if rel != 0 {
            rows_upto(img, meta, w, n - 1) + page_rows(page_of(img, meta + rel), w, slots_in_page(w))
        } else {
            rows_upto(img, meta, w, n - 1)
        }
    }
}

/// The rows of a table: every slot of each of its data pages.
pub open spec fn table_rows(img: Seq<u8>, t: TableSpec) -> Seq<Seq<u8>> {
    rows_upto(img, t.meta_page, t.row_len, 128)
}

/// The byte range of a condition lies in a row of `w` bytes.
pub open spec fn cond_ok(c: ConditionSpec, w: int) -> bool {
    0 <= c.start <= c.end <= w
}

/// The byte range of each condition lies in a row of `w` bytes.
pub open spec fn conds_ok(cs: Seq<ConditionSpec>, w: int) -> bool {
    forall|k: int| 0 <= k < cs.len() ==> cond_ok(#[trigger] cs[k], w)
}

/// The row holds the bytes of the condition in its range.
pub open spec fn cond_holds(row: Seq<u8>, c: ConditionSpec) -> bool {
    row.subrange(c.start, c.end) == c.data
}

/// The row meets every condition.
pub open spec fn row_matches(row: Seq<u8>, cs: Seq<ConditionSpec>) -> bool {
    forall|k: int| 0 <= k < cs.len() ==> cond_holds(row, #[trigger] cs[k])
}

/// The test that a row meets every condition.
pub open spec fn matcher(cs: Seq<ConditionSpec>) -> spec_fn(Seq<u8>) -> bool {
    |row: Seq<u8>| row_matches(row, cs)
}

/// The views of a list of conditions.
pub open spec fn cond_specs(cs: Seq<Condition>) -> Seq<ConditionSpec> {
    cs.map_values(|c: Condition| c@)
}

/// The contents of a list of rows.
pub open spec fn row_seqs(rows: Seq<Vec<u8>>) -> Seq<Seq<u8>> {
    rows.map_values(|r: Vec<u8>| r@)
}

/// The slots of a page lie in the page.
pub proof fn lemma_slot_bounds(w: int, j: int)
    requires
        1 <= w <= 4096,
        0 <= j < slots_in_page(w),
    ensures
        0 <= j * w,
        j * w + w <= 4096,
        (j + 1) * w == j * w + w,
{
    assert(0 <= j * w && j * w + w <= 4096 && (j + 1) * w == j * w + w) by (nonlinear_arith)
        requires
            1 <= w <= 4096,
            0 <= j < 4096int / w,
    ;
}

/// A page has at least one slot, and no more than 4096.
pub proof fn lemma_slots_in_page(w: int)
    requires
        1 <= w <= 4096,
    ensures
        1 <= slots_in_page(w) <= 4096,
        slots_in_page(w) * w <= 4096,
{
    assert(1 <= 4096int / w <= 4096 && (4096int / w) * w <= 4096) by (nonlinear_arith)
        requires
            1 <= w <= 4096,
    ;
}

/// A row added to a list is kept by a filter when it passes the test, and
/// only then.
pub proof fn lemma_filter_push(rows: Seq<Seq<u8>>, row: Seq<u8>, cs: Seq<ConditionSpec>)
    ensures
        rows.push(row).filter(matcher(cs)) == if row_matches(row, cs) {
            rows.filter(matcher(cs)).push(row)
        } else {
            rows.filter(matcher(cs))
        },
{
    reveal(Seq::filter);
    assert(rows.push(row).drop_last() =~= rows);
}

/// Whether the row of `w` bytes at `at` holds the bytes of the condition.
fn cond_holds_at(page: &[u8], at: usize, w: usize, c: &Condition) -> (b: bool)
    requires
        at + w <= page@.len(),
        cond_ok(c@, w as int),
    ensures
        b == cond_holds(page@.subrange(at as int, at + w), c@),
{
    let start = c.range.start;
    let len = c.range.end - start;
    let total = page.len();
    let ghost row = page@.subrange(at as int, at + w);
    if c.data.len() != len {
        assert(row.subrange(c@.start, c@.end).len() != c@.data.len());
        return false;
    }
    let mut k: usize = 0;
    while k < len
        invariant
            k <= len,
            len == c.data@.len(),
            len == c.range.end - start,
            start == c.range.start,
            at + w <= total == page@.len(),
            cond_ok(c@, w as int),
            row == page@.subrange(at as int, at + w),
            forall|x: int| 0 <= x < k ==> row[start + x] == c.data@[x],
        decreases len - k,
    {
        if page[at + start + k] != c.data[k] {
            assert(row.subrange(c@.start, c@.end)[k as int] != c@.data[k as int]);
            return false;
        }
        k += 1;
    }
    assert(row.subrange(c@.start, c@.end) =~= c@.data);
    true
}

/// Whether the row of `w` bytes at `at` meets every condition.
pub(crate) fn row_matches_at(
    page: &[u8],
    at: usize,
    w: usize,
    conditions: &[Condition],
) -> (b: bool)
    requires
        at + w <= page@.len(),
        conds_ok(cond_specs(conditions@), w as int),
    ensures
        b == row_matches(page@.subrange(at as int, at + w), cond_specs(conditions@)),
{
    let ghost cs = cond_specs(conditions@);
    let ghost row = page@.subrange(at as int, at + w);
    let mut k: usize = 0;
    while k < conditions.len()
        invariant
            k <= conditions@.len(),
            at + w <= page@.len(),
            cs == cond_specs(conditions@),
            conds_ok(cs, w as int),
            row == page@.subrange(at as int, at + w),
            forall|x: int| 0 <= x < k ==> cond_holds(row, #[trigger] cs[x]),
        decreases conditions@.len() - k,
    {
        assert(cs[k as int] == conditions@[k as int]@);
        if !cond_holds_at(page, at, w, &conditions[k]) {
            return false;
        }
        k += 1;
    }
    true
}

/// Whether the byte range of each condition lies in a row of `w` bytes.
pub(crate) fn check_conds(conditions: &[Condition], w: usize) -> (b: bool)
    ensures
        b == conds_ok(cond_specs(conditions@), w as int),
{
    let ghost cs = cond_specs(conditions@);
    let mut k: usize = 0;
    while k < conditions.len()
        invariant
            k <= conditions@.len(),
            cs == cond_specs(conditions@),
            forall|x: int| 0 <= x < k ==> cond_ok(#[trigger] cs[x], w as int),
        decreases conditions@.len() - k,
    {
        assert(cs[k as int] == conditions@[k as int]@);
        if conditions[k].range.start > conditions[k].range.end || conditions[k].range.end > w {
            return false;
        }
        k += 1;
    }
    true
}

/// The copy of the `w` bytes at `at`.
pub(crate) fn copy_row(page: &[u8], at: usize, w: usize) -> (row: Vec<u8>)
    requires
        at + w <= page@.len(),
    ensures
        row@ == page@.subrange(at as int, at + w),
{
    let mut row: Vec<u8> = Vec::new();
    let total = page.len();
    let mut k: usize = 0;
    assert(row@ =~= page@.subrange(at as int, at + k));
    while k < w
        invariant
            k <= w,
            at + w <= total == page@.len(),
            row@ == page@.subrange(at as int, at + k),
        decreases w - k,
    {
        row.push(page[at + k]);
        k += 1;
        assert(row@ =~= page@.subrange(at as int, at + k));
    }
    row
}

// ----------------------------------------------------------------------
// What a valid database gives for a table that the handle knows

impl DatabaseSpec {
    /// In a database in order a name belongs to one table at most, so the
    /// table found under a name is any table of that name.
    pub proof fn lemma_find(self, k: int)
        requires
            self.wf(),
            0 <= k < self.tables.len(),
        ensures
            self.find(self.tables[k].name) == Some(self.tables[k]),
            self.position(self.tables[k].name) == k,
            slot_ok(self.image, self.tables[k].slot),
            1 <= self.tables[k].row_len <= 4096,
    {
        let name = self.tables[k].name;
        let j = choose|j: int| 0 <= j < self.tables.len() && (#[trigger] self.tables[j]).name == name;
        if j != k {
            let s = self.tables[j].slot;
            let t = self.tables[k].slot;
            assert(slot_live(self.image, s) && slot_live(self.image, t));
            assert(slots_apart(self.image, s, t));
        }
        assert(slot_live(self.image, self.tables[k].slot));
    }
}

/// Where a table stands in the handle's list, and what the handle knows of
/// it but its data pages.
#[derive(Clone, Copy)]
pub struct TableInfo {
    pub index: usize,
    pub def_page: i32,
    pub meta_page: i32,
    pub row_len: u16,
    pub slot: u8,
}

/// The rows that a select gives: those rows of the table that meet every
/// condition, in the order of the file. An unknown table is `TableNotFound`;
/// a condition whose range leaves the row is `InvalidArgument`.
pub open spec fn select_result(db: DatabaseSpec, name: Seq<char>, cs: Seq<ConditionSpec>) -> Result<
    Seq<Seq<u8>>,
    CreateTableError,
> {
    match db.find(name) {
        None => Err(CreateTableError::TableNotFound),
        Some(t) => if !conds_ok(cs, t.row_len) {
            Err(CreateTableError::InvalidArgument)
        } else {
            Ok(table_rows(db.image, t).filter(matcher(cs)))
        },
    }
}

impl Database {
    /// The table of the given name, with what a database in order gives for
    /// it.
    pub(crate) fn lookup(&self, table_name: &str) -> (r: Result<&HeaderMeta, CreateTableError>)
        requires
            self.wf(),
        ensures
            match r {
                Ok(t) => {
                    &&& self@.find(table_name@) == Some(t@)
                    &&& t.name@ == table_name@
                    &&& exists|k: int| 0 <= k < self.header_table@.len() && #[trigger] self.header_table@[k] == *t
                    &&& 0 <= t@.slot < 128
                    &&& slot_live(self@.image, t@.slot)
                    &&& slot_ok(self@.image, t@.slot)
                    &&& t@ == crate::database::entry_of(self@.image, t@.slot)
                    &&& 1 <= t.row_len <= 4096
                },
                Err(e) => e == CreateTableError::TableNotFound && self@.find(table_name@) is None,
            },
    {
        let r = check_table_exists(&self.header_table, table_name);
        proof {
            self.lemma_view();
            let specs = table_specs(self.header_table@);
            match r {
                Ok(t) => {
                    let k = choose|k: int|
                        0 <= k < self.header_table@.len() && #[trigger] self.header_table@[k] == *t;
                    assert(specs[k] == t@);
                    self@.lemma_find(k);
                },
                Err(_) => {
                    assert forall|k: int| 0 <= k < specs.len() implies (#[trigger] specs[k]).name != table_name@ by {
                        assert(specs[k] == self.header_table@[k]@);
                    }
                },
            }
        }
        r
    }

    /// Where the table of the given name stands in the handle's list, and
    /// what the handle knows of it but its data pages.
    pub(crate) fn table_info(&self, table_name: &str) -> (r: Result<TableInfo, CreateTableError>)
        requires
            self.wf(),
        ensures
            match r {
                Ok(info) => {
                    let t = self@.tables[info.index as int];
                    &&& info.index < self@.tables.len()
                    &&& info.index == self@.position(table_name@)
                    &&& self@.find(table_name@) == Some(t)
                    &&& t.name == table_name@
                    &&& t.def_page == info.def_page
                    &&& t.meta_page == info.meta_page
                    &&& t.row_len == info.row_len
                    &&& t.slot == info.slot
                    &&& 0 <= t.slot < 128
                    &&& slot_live(self@.image, t.slot)
                    &&& slot_ok(self@.image, t.slot)
                    &&& t == crate::database::entry_of(self@.image, t.slot)
                    &&& 1 <= info.row_len <= 4096
                },
                Err(e) => e == CreateTableError::TableNotFound && self@.find(table_name@) is None,
            },
    {
        proof {
            self.lemma_view();
        }
        let mut k: usize = 0;
        while k < self.header_table.len()
            invariant
                k <= self.header_table@.len(),
                self.wf(),
                self@.tables == table_specs(self.header_table@),
                forall|j: int| 0 <= j < k ==> (#[trigger] self@.tables[j]).name != table_name@,
            decreases self.header_table@.len() - k,
        {
            let t = &self.header_table[k];
            assert(self@.tables[k as int] == t@);
            if crate::catalog::same_text(t.name.as_str(), table_name) {
                proof {
                    self@.lemma_find(k as int);
                }
                return Ok(
                    TableInfo {
                        index: k,
                        def_page: t.col_def_offset,
                        meta_page: t.meta_offset,
                        row_len: t.row_len,
                        slot: t.header_record_offset,
                    },
                );
            }
            k += 1;
        }
        Err(CreateTableError::TableNotFound)
    }

    /// The rows of a table that meet every condition: the bytes in the
    /// condition's range equal its data. Every slot of every data page is
    /// tried, so an empty slot, all zeros, is among the rows where it meets
    /// the conditions.
    pub fn select(&self, table_name: &str, conditions: &[Condition]) -> (r: Result<
        Vec<Vec<u8>>,
        CreateTableError,
    >)
        requires
            self.wf(),
        ensures
            match select_result(self@, table_name@, cond_specs(conditions@)) {
                Ok(rows) => r is Ok && row_seqs(r->Ok_0@) == rows,
                Err(e) => r == Err::<Vec<Vec<u8>>, CreateTableError>(e),
            },
    {
        let t = match self.lookup(table_name) {
            Ok(t) => t,
            Err(e) => {
                return Err(e);
            },
        };
        proof {
            self.lemma_view();
        }
        let w: usize = t.row_len as usize;
        if !check_conds(conditions, w) {
            return Err(CreateTableError::InvalidArgument);
        }
        let meta = t.meta_offset;
        let meta_page = match self.store.read_page(meta) {
            Ok(page) => page,
            Err(e) => {
                return Err(e);
            },
        };
        let ghost img = self@.image;
        let ghost cs = cond_specs(conditions@);
        let slots: usize = 4096 / w;
        let mut res: Vec<Vec<u8>> = Vec::new();
        let mut i: usize = 0;
        assert(row_seqs(res@) =~= rows_upto(img, meta as int, w as int, 0).filter(matcher(cs))) by {
            reveal(Seq::filter);
        }
        while i < RECORD_COUNT
            invariant
                i <= 128,
                self.wf(),
                img == self@.image,
                img == self.store@,
                cs == cond_specs(conditions@),
                conds_ok(cs, w as int),
                1 <= w <= 4096,
                slots == slots_in_page(w as int),
                meta_page@ == page_of(img, meta as int),
                has_page(img, meta as int),
                meta_ok(img, t.col_def_offset as int, meta as int),
                row_seqs(res@) == rows_upto(img, meta as int, w as int, i as int).filter(matcher(cs)),
            decreases 128 - i,
        {
            let rel = parse_meta_record(meta_page.as_slice(), i);
            if rel != 0 {
                assert(data_ok(img, t.col_def_offset as int, meta + rel));
                let page = match self.store.read_page(meta + rel) {
                    Ok(page) => page,
                    Err(e) => {
                        return Err(e);
                    },
                };
                let ghost done = rows_upto(img, meta as int, w as int, i as int);
                let mut j: usize = 0;
                let mut at: usize = 0;
                assert(done + page_rows(page@, w as int, 0) =~= done);
                while j < slots
                    invariant
                        j <= slots,
                        at == j * w,
                        1 <= w <= 4096,
                        slots == slots_in_page(w as int),
                        page@.len() == 4096,
                        cs == cond_specs(conditions@),
                        conds_ok(cs, w as int),
                        row_seqs(res@) == (done + page_rows(page@, w as int, j as int)).filter(matcher(cs)),
                    decreases slots - j,
                {
                    proof {
                        lemma_slot_bounds(w as int, j as int);
                    }
                    let ghost rows = done + page_rows(page@, w as int, j as int);
                    let ghost row = slot_row(page@, w as int, j as int);
                    let ghost before = res@;
                    if row_matches_at(page.as_slice(), at, w, conditions) {
                        res.push(copy_row(page.as_slice(), at, w));
                        assert(row_seqs(res@) =~= row_seqs(before).push(row));
                    }
                    proof {
                        lemma_filter_push(rows, row, cs);
                        assert(done + page_rows(page@, w as int, j + 1) =~= rows.push(row));
                    }
                    j += 1;
                    at += w;
                }
            }
            i += 1;
        }
        Ok(res)
    }
}

} // verus!
