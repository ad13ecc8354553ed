//! Update: partial overwrites of the rows that meet the conditions.

use crate::catalog::{meta_rel, parse_meta_record};
use crate::database::{
    data_ok, in_use_of, lemma_data_page_private, lemma_same_directories, meta_ok, mirrors_upto,
    same_directories, slot_def, slot_live, slot_meta, slot_ok, valid, Database, DatabaseSpec,
    TableSpec,
};
use crate::layout::{
    has_page, lemma_grown_same, lemma_splice_page, page_of, splice, write_into, RECORD_COUNT,
};
use crate::rows::{
    check_conds, cond_ok, cond_specs, conds_ok, copy_row, lemma_filter_push, lemma_slot_bounds,
    lemma_slots_in_page, matcher, page_rows, row_matches, row_matches_at, rows_upto, slot_row,
    slots_in_page, table_rows,
};
use crate::table::{Condition, ConditionSpec, CreateTableError};
use vstd::prelude::*;

verus! {

/// A field to write lies in a row of `w` bytes: its range does, and so do
/// the bytes written from the start of the range on.
pub open spec fn field_ok(f: ConditionSpec, w: int) -> bool {
    cond_ok(f, w) && f.start + f.data.len() <= w
}

/// Each field to write lies in a row of `w` bytes.
pub open spec fn fields_ok(fs: Seq<ConditionSpec>, w: int) -> bool {
    forall|k: int| 0 <= k < fs.len() ==> field_ok(#[trigger] fs[k], w)
}

/// The row after the first `n` fields were written, each at the start of its
/// range, one after the other.
pub open spec fn applied_upto(row: Seq<u8>, fs: Seq<ConditionSpec>, n: int) -> Seq<u8>
    decreases n,
{
    if n <= 0 {
        row
    } else {
        splice(applied_upto(row, fs, n - 1), fs[n - 1].start, fs[n - 1].data)
    }
}

/// The row after every field was written.
pub open spec fn applied(row: Seq<u8>, fs: Seq<ConditionSpec>) -> Seq<u8> {
    applied_upto(row, fs, fs.len() as int)
}

/// The data page after the update of its first `n` slots: each row that
/// meets the conditions has the fields written over it.
pub open spec fn updated_page(
    page: Seq<u8>,
    w: int,
    cs: Seq<ConditionSpec>,
    fs: Seq<ConditionSpec>,
    n: int,
) -> Seq<u8>
    decreases n,
{
    if n <= 0 {
        page
    } else {
        let prev = updated_page(page, w, cs, fs, n - 1);
        let row = slot_row(page, w, n - 1);
        if row_matches(row, cs) {
            splice(prev, (n - 1) * w, applied(row, fs))
        } else {
            prev
        }
    }
}

/// The file after the update of the data pages that the first `n` records of
/// the meta page list.
pub open spec fn updated_upto(
    img: Seq<u8>,
    meta: int,
    w: int,
    cs: Seq<ConditionSpec>,
    fs: Seq<ConditionSpec>,
    n: int,
) -> Seq<u8>
    decreases n,
{
    if n <= 0 {
        img
    } else {
        let prev = updated_upto(img, meta, w, cs, fs, n - 1);
        let rel = meta_rel(page_of(img, meta), n - 1);
        if rel != 0 {
            splice(
                prev,
                (meta + rel) * 4096,
                updated_page(page_of(img, meta + rel), w, cs, fs, slots_in_page(w)),
            )
        } else {
            prev
        }
    }
}

/// What an update gives: the file in which every row of the table that met
/// the conditions has the fields written over it, and the number of those
/// rows. An unknown table is `TableNotFound`; a condition or a field that
/// leaves the row is `InvalidArgument`.
pub open spec fn update_result(
    db: DatabaseSpec,
    name: Seq<char>,
    cs: Seq<ConditionSpec>,
    fs: Seq<ConditionSpec>,
) -> Result<(Seq<u8>, int), CreateTableError> {
    match db.find(name) {
        None => Err(CreateTableError::TableNotFound),
        Some(t) => if !conds_ok(cs, t.row_len) || !fields_ok(fs, t.row_len) {
            Err(CreateTableError::InvalidArgument)
        } else {
            Ok(
                (
                    updated_upto(db.image, t.meta_page, t.row_len, cs, fs, 128),
                    table_rows(db.image, t).filter(matcher(cs)).len() as int,
                ),
            )
        },
    }
}

/// Writing fields keeps the length of the row.
pub proof fn lemma_applied_len(row: Seq<u8>, fs: Seq<ConditionSpec>, n: int)
    ensures
        applied_upto(row, fs, n).len() == row.len(),
    decreases n,
{
    if n > 0 {
        lemma_applied_len(row, fs, n - 1);
    }
}

/// The update of the first `n` slots keeps the length of the page and the
/// bytes from slot `n` on.
pub proof fn lemma_updated_page(
    page: Seq<u8>,
    w: int,
    cs: Seq<ConditionSpec>,
    fs: Seq<ConditionSpec>,
    n: int,
)
    requires
        page.len() == 4096,
        1 <= w <= 4096,
        0 <= n <= slots_in_page(w),
    ensures
        updated_page(page, w, cs, fs, n).len() == 4096,
        forall|x: int| n * w <= x < 4096 ==> updated_page(page, w, cs, fs, n)[x] == page[x],
    decreases n,
{
    if n > 0 {
        lemma_updated_page(page, w, cs, fs, n - 1);
        lemma_slot_bounds(w, n - 1);
        lemma_applied_len(slot_row(page, w, n - 1), fs, fs.len() as int);
    }
}

/// The update of the data pages of the first `n` records keeps the length of
/// the file and every page but those data pages.
pub proof fn lemma_updated_upto(
    img: Seq<u8>,
    def: int,
    meta: int,
    w: int,
    cs: Seq<ConditionSpec>,
    fs: Seq<ConditionSpec>,
    n: int,
    q: int,
)
    requires
        meta_ok(img, def, meta),
        1 <= w <= 4096,
        0 <= n <= 128,
        has_page(img, q),
        forall|j: int|
            0 <= j < n && #[trigger] meta_rel(page_of(img, meta), j) != 0 ==> q != meta + meta_rel(
                page_of(img, meta),
                j,
            ),
    ensures
        updated_upto(img, meta, w, cs, fs, n).len() == img.len(),
        page_of(updated_upto(img, meta, w, cs, fs, n), q) == page_of(img, q),
    decreases n,
{
    if n > 0 {
        lemma_updated_upto(img, def, meta, w, cs, fs, n - 1, q);
        let rel = meta_rel(page_of(img, meta), n - 1);
        if rel != 0 {
            let p = meta + rel;
            let prev = updated_upto(img, meta, w, cs, fs, n - 1);
            assert(data_ok(img, def, p));
            lemma_slots_in_page(w);
            lemma_updated_page(page_of(img, p), w, cs, fs, slots_in_page(w));
            lemma_splice_page(
                prev,
                p,
                0,
                updated_page(page_of(img, p), w, cs, fs, slots_in_page(w)),
                q,
            );
        }
    }
}

/// The update of the data pages of the first `n` records leaves in each of
/// those pages the page updated in every slot.
pub proof fn lemma_updated_pages(
    img: Seq<u8>,
    def: int,
    meta: int,
    w: int,
    cs: Seq<ConditionSpec>,
    fs: Seq<ConditionSpec>,
    n: int,
    j: int,
)
    requires
        meta_ok(img, def, meta),
        1 <= w <= 4096,
        0 <= j < n <= 128,
        meta_rel(page_of(img, meta), j) != 0,
    ensures
        page_of(updated_upto(img, meta, w, cs, fs, n), meta + meta_rel(page_of(img, meta), j))
            == updated_page(
            page_of(img, meta + meta_rel(page_of(img, meta), j)),
            w,
            cs,
            fs,
            slots_in_page(w),
        ),
    decreases n,
{
    let mp = page_of(img, meta);
    let p = meta + meta_rel(mp, j);
    let prev = updated_upto(img, meta, w, cs, fs, n - 1);
    let rel = meta_rel(mp, n - 1);
    assert(data_ok(img, def, p));
    lemma_slots_in_page(w);
    if j == n - 1 {
        assert forall|i: int| 0 <= i < n - 1 && #[trigger] meta_rel(mp, i) != 0 implies p != meta + meta_rel(
            mp,
            i,
        ) by {}
        lemma_updated_upto(img, def, meta, w, cs, fs, n - 1, p);
        let up = updated_page(page_of(img, p), w, cs, fs, slots_in_page(w));
        lemma_updated_page(page_of(img, p), w, cs, fs, slots_in_page(w));
        lemma_splice_page(prev, p, 0, up, p);
        assert(splice(page_of(prev, p), 0, up) =~= up);
    } else {
        lemma_updated_pages(img, def, meta, w, cs, fs, n - 1, j);
        if rel != 0 {
            let q = meta + rel;
            assert(data_ok(img, def, q));
            assert(meta_rel(mp, j) != meta_rel(mp, n - 1));
            lemma_updated_upto(img, def, meta, w, cs, fs, n - 1, 0);
            lemma_updated_page(page_of(img, q), w, cs, fs, slots_in_page(w));
            lemma_splice_page(prev, q, 0, updated_page(page_of(img, q), w, cs, fs, slots_in_page(w)), p);
        }
    }
}

/// An update keeps the database valid, with the same tables and the same
/// pages in use, and the file as long as it was.
pub proof fn lemma_update(
    img: Seq<u8>,
    s0: int,
    w: int,
    cs: Seq<ConditionSpec>,
    fs: Seq<ConditionSpec>,
    tables: Seq<TableSpec>,
)
    requires
        valid(img),
        0 <= s0 < 128,
        slot_live(img, s0),
        1 <= w <= 4096,
    ensures
        ({
            let fin = updated_upto(img, slot_meta(img, s0), w, cs, fs, 128);
            &&& fin.len() == img.len()
            &&& page_of(fin, slot_meta(img, s0)) == page_of(img, slot_meta(img, s0))
            &&& valid(fin)
            &&& in_use_of(fin) == in_use_of(img)
            &&& mirrors_upto(img, tables, 128) ==> mirrors_upto(fin, tables, 128)
        }),
{
    let meta = slot_meta(img, s0);
    let def = slot_def(img, s0);
    let fin = updated_upto(img, meta, w, cs, fs, 128);
    assert(slot_ok(img, s0));
    assert(same_directories(img, fin)) by {
        lemma_updated_upto(img, def, meta, w, cs, fs, 128, 0);
        assert forall|s: int| 0 <= s < 128 && #[trigger] slot_live(img, s) implies page_of(
            fin,
            slot_def(img, s),
        ) == page_of(img, slot_def(img, s)) && page_of(fin, slot_meta(img, s)) == page_of(
            img,
            slot_meta(img, s),
        ) by {
            assert(slot_ok(img, s));
            assert forall|j: int|
                0 <= j < 128 && #[trigger] meta_rel(page_of(img, meta), j) != 0 implies slot_def(img, s)
                != meta + meta_rel(page_of(img, meta), j) && slot_meta(img, s) != meta + meta_rel(
                page_of(img, meta),
                j,
            ) by {
                lemma_data_page_private(img, s0, j, s);
            }
            lemma_updated_upto(img, def, meta, w, cs, fs, 128, slot_def(img, s));
            lemma_updated_upto(img, def, meta, w, cs, fs, 128, slot_meta(img, s));
        }
    }
    lemma_updated_upto(img, def, meta, w, cs, fs, 128, 0);
    assert(page_of(fin, slot_meta(img, s0)) == page_of(img, slot_meta(img, s0)));
    lemma_same_directories(img, fin, tables);
}

/// Whether each field to write lies in a row of `w` bytes.
fn check_fields(fields: &[Condition], w: usize) -> (b: bool)
    ensures
        b == fields_ok(cond_specs(fields@), w as int),
{
    let ghost fs = cond_specs(fields@);
    let mut k: usize = 0;
    while k < fields.len()
        invariant
            k <= fields@.len(),
            fs == cond_specs(fields@),
            forall|x: int| 0 <= x < k ==> field_ok(#[trigger] fs[x], w as int),
        decreases fields@.len() - k,
    {
        assert(fs[k as int] == fields@[k as int]@);
        let f = &fields[k];
        if f.range.start > f.range.end || f.range.end > w || f.data.len() > w - f.range.start {
            return false;
        }
        k += 1;
    }
    true
}

/// Writes every field over the row.
fn apply_fields(row: &mut Vec<u8>, fields: &[Condition])
    requires
        fields_ok(cond_specs(fields@), old(row)@.len() as int),
    ensures
        final(row)@ == applied(old(row)@, cond_specs(fields@)),
{
    let ghost fs = cond_specs(fields@);
    let ghost base = row@;
    let mut k: usize = 0;
    while k < fields.len()
        invariant
            k <= fields@.len(),
            fs == cond_specs(fields@),
            fields_ok(fs, base.len() as int),
            row@.len() == base.len(),
            row@ == applied_upto(base, fs, k as int),
        decreases fields@.len() - k,
    {
        assert(fs[k as int] == fields@[k as int]@);
        assert(field_ok(fs[k as int], base.len() as int));
        write_into(row, fields[k].range.start, fields[k].data.as_slice());
        k += 1;
    }
}

impl Database {
    /// Writes the fields over every row of the table that meets the
    /// conditions, each field at the start of its range, and gives the
    /// number of those rows. Empty slots are rows too. On an error the
    /// database is unchanged.
    pub fn update(
        &mut self,
        table_name: &str,
        conditions: &[Condition],
        new_value: &[Condition],
    ) -> (r:
        Result<usize, CreateTableError>)
        requires
            old(self).wf(),
        ensures
            final(self).wf(),
            final(self)@.tables == old(self)@.tables,
            final(self)@.in_use == old(self)@.in_use,
            match update_result(
                old(self)@,
                table_name@,
                cond_specs(conditions@),
                cond_specs(new_value@),
            ) {
                Ok((image, count)) => r matches Ok(n) && n == count && final(self)@.image == image,
                Err(e) => r == Err::<usize, CreateTableError>(e) && final(self)@.image == old(self)@.image,
            },
    {
        let info = match self.table_info(table_name) {
            Ok(info) => info,
            Err(e) => {
                return Err(e);
            },
        };
        let w: usize = info.row_len as usize;
        if !check_conds(conditions, w) || !check_fields(new_value, w) {
            return Err(CreateTableError::InvalidArgument);
        }
        proof {
            self.lemma_view();
        }
        let meta = info.meta_page;
        let ghost def = info.def_page as int;
        let ghost s0 = info.slot as int;
        let ghost img = self@.image;
        let ghost cs = cond_specs(conditions@);
        let ghost fs = cond_specs(new_value@);
        let meta_page = match self.store.read_page(meta) {
            Ok(page) => page,
            Err(e) => {
                return Err(e);
            },
        };
        let slots: usize = 4096 / w;
        proof {
            self.store.lemma_len();
        }
        let mut count: usize = 0;
        let mut i: usize = 0;
        assert(rows_upto(img, meta as int, w as int, 0).filter(matcher(cs)).len() == 0) by {
            reveal(Seq::filter);
        }
        while i < RECORD_COUNT
            invariant
                i <= 128,
                cs == cond_specs(conditions@),
                fs == cond_specs(new_value@),
                conds_ok(cs, w as int),
                fields_ok(fs, w as int),
                1 <= w <= 4096,
                slots == slots_in_page(w as int),
                meta_page@ == page_of(img, meta as int),
                has_page(img, meta as int),
                meta_ok(img, def, meta as int),
                self.store@ == updated_upto(img, meta as int, w as int, cs, fs, i as int),
                self.store@.len() == img.len(),
                img.len() <= usize::MAX,
                self.header_table == old(self).header_table,
                self.in_use_pages == old(self).in_use_pages,
                count == rows_upto(img, meta as int, w as int, i as int).filter(matcher(cs)).len(),
                count <= i * 4096,
            decreases 128 - i,
        {
            let rel = parse_meta_record(meta_page.as_slice(), i);
            if rel != 0 {
                let ghost p = meta + rel;
                proof {
                    assert(data_ok(img, def, p));
                    assert forall|j: int|
                        0 <= j < i && #[trigger] meta_rel(page_of(img, meta as int), j) != 0 implies p != meta
                        + meta_rel(page_of(img, meta as int), j) by {}
                    lemma_updated_upto(img, def, meta as int, w as int, cs, fs, i as int, p);
                }
                let mut page = match self.store.read_page(meta + rel) {
                    Ok(page) => page,
                    Err(e) => {
                        return Err(e);
                    },
                };
                let ghost orig = page@;
                let ghost done = rows_upto(img, meta as int, w as int, i as int);
                proof {
                    lemma_slots_in_page(w as int);
                }
                let mut j: usize = 0;
                let mut at: usize = 0;
                let mut changed = false;
                assert(done + page_rows(orig, w as int, 0) =~= done);
                while j < slots
                    invariant
                        j <= slots,
                        i < 128,
                        slots <= 4096,
                        at == j * w,
                        1 <= w <= 4096,
                        slots == slots_in_page(w as int),
                        orig.len() == 4096,
                        cs == cond_specs(conditions@),
                        fs == cond_specs(new_value@),
                        conds_ok(cs, w as int),
                        fields_ok(fs, w as int),
                        page@ == updated_page(orig, w as int, cs, fs, j as int),
                        page@.len() == 4096,
                        !changed ==> page@ == orig,
                        count == (done + page_rows(orig, w as int, j as int)).filter(matcher(cs)).len(),
                        count <= i * 4096 + j,
                    decreases slots - j,
                {
                    proof {
                        lemma_slot_bounds(w as int, j as int);
                        lemma_updated_page(orig, w as int, cs, fs, j as int);
                        lemma_updated_page(orig, w as int, cs, fs, j + 1);
                    }
                    let ghost rows = done + page_rows(orig, w as int, j as int);
                    let ghost row = slot_row(orig, w as int, j as int);
                    assert(page@.subrange(at as int, at + w) =~= row);
                    if row_matches_at(page.as_slice(), at, w, conditions) {
                        let mut fresh = copy_row(page.as_slice(), at, w);
                        apply_fields(&mut fresh, new_value);
                        proof {
                            lemma_applied_len(row, fs, fs.len() as int);
                        }
                        write_into(&mut page, at, fresh.as_slice());
                        count += 1;
                        changed = true;
                    }
                    proof {
                        lemma_filter_push(rows, row, cs);
                        assert(done + page_rows(orig, w as int, j + 1) =~= rows.push(row));
                    }
                    j += 1;
                    at += w;
                }
                let ghost before = self.store@;
                if changed {
                    match self.store.write_at(meta + rel, 0, page.as_slice()) {
                        Ok(()) => {},
                        Err(e) => {
                            return Err(e);
                        },
                    }
                    proof {
                        lemma_grown_same(before, p);
                    }
                } else {
                    proof {
                        assert(before =~= splice(before, p * 4096, page@));
                    }
                }
            }
            i += 1;
        }
        proof {
            lemma_update(img, s0, w as int, cs, fs, old(self)@.tables);
            self.lemma_view();
            old(self).lemma_view();
        }
        Ok(count)
    }
}

} // verus!
