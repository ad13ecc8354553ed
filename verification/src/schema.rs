//! The schema manager: reading the definition of a table, and dropping a
//! table.

use crate::catalog::{
    cols_upto, def_columns, def_len, def_ok, header_rec, lemma_def_len, lemma_def_len_bounds,
    lemma_meta_rels_complete, lemma_meta_rels_sound, meta_rel, meta_rels, parse_def_record,
    rel_ints,
};
use crate::database::{
    data_ok, data_pages, entry_of, in_use_of, mirrors_upto, slot_def, slot_live, slot_meta, slot_ok,
    slot_owns, slots_apart, table_specs, valid, Database, DatabaseSpec, TableSpec,
};
use crate::layout::{
    has_page, lemma_grown_same, lemma_splice_page, lemma_splice_record, page_of, record_of, splice,
    zeros, RECORD_COUNT, RECORD_LEN,
};
use crate::store::written;
use crate::table::{ColumnDef, ColumnSpec, CreateTableError};
use vstd::prelude::*;

verus! {

/// The views of a list of columns.
pub open spec fn column_specs(cols: Seq<ColumnDef>) -> Seq<ColumnSpec> {
    cols.map_values(|c: ColumnDef| c@)
}

/// The columns of a table, as its definition page lists them; `TableNotFound`
/// for an unknown table.
pub open spec fn table_def_result(db: DatabaseSpec, name: Seq<char>) -> Result<
    Seq<ColumnSpec>,
    CreateTableError,
> {
    match db.find(name) {
        None => Err(CreateTableError::TableNotFound),
        Some(t) => Ok(def_columns(page_of(db.image, t.def_page))),
    }
}

/// The file after a table was dropped: the header record in its slot is
/// zeroed, and nothing else is written.
pub open spec fn dropped_image(img: Seq<u8>, slot: int) -> Seq<u8> {
    splice(img, slot * 32, zeros(32))
}

/// What a drop gives: the file without the table's header record;
/// `TableNotFound` for an unknown table.
pub open spec fn drop_result(
    db: DatabaseSpec,
    name: Seq<char>,
) -> Result<Seq<u8>, CreateTableError> {
    match db.find(name) {
        None => Err(CreateTableError::TableNotFound),
        Some(t) => Ok(dropped_image(db.image, t.slot)),
    }
}

/// The pages in use but those of the table in header slot `s`.
pub open spec fn pages_without(img: Seq<u8>, s: int) -> Set<int> {
    Set::new(|p: int| in_use_of(img).contains(p) && !slot_owns(img, s, p))
}

/// The data pages at the first `n` of the relative page numbers `offs`.
pub open spec fn offset_pages(meta: int, offs: Seq<int>, n: int) -> Set<int> {
    Set::new(|q: int| exists|j: int| 0 <= j < n && q == meta + #[trigger] offs[j])
}

/// A drop keeps the database valid; the pages of the table are no longer in
/// use, and the handle's list is without the table.
pub proof fn lemma_drop(img: Seq<u8>, s0: int, tables: Seq<TableSpec>, k: int)
    requires
        valid(img),
        0 <= s0 < 128,
        slot_live(img, s0),
        mirrors_upto(img, tables, 128),
        0 <= k < tables.len(),
        tables[k].slot == s0,
    ensures
        ({
            let fin = dropped_image(img, s0);
            &&& written(img, 0, s0 * 32, zeros(32)) == fin
            &&& valid(fin)
            &&& !slot_live(fin, s0)
            &&& in_use_of(fin) == pages_without(img, s0)
            &&& mirrors_upto(fin, tables.remove(k), 128)
        }),
{
    let fin = dropped_image(img, s0);
    lemma_grown_same(img, 0);
    lemma_splice_page(img, 0, s0 * 32, zeros(32), 0);
    assert forall|q: int| has_page(img, q) && q != 0 implies #[trigger] page_of(fin, q) == page_of(img, q) by {
        lemma_splice_page(img, 0, s0 * 32, zeros(32), q);
    }
    assert forall|s: int| 0 <= s < 128 implies #[trigger] header_rec(fin, s) == if s == s0 {
        zeros(32)
    } else {
        header_rec(img, s)
    } by {
        lemma_splice_record(page_of(img, 0), s0, 0, zeros(32), s);
        if s == s0 {
            assert(splice(header_rec(img, s0), 0, zeros(32)) =~= zeros(32));
        }
    }
    assert(!slot_live(fin, s0));
    assert forall|s: int| 0 <= s < 128 && s != s0 implies slot_live(fin, s) == #[trigger] slot_live(img, s) by {
        assert(header_rec(fin, s) == header_rec(img, s));
    }
    assert forall|s: int| 0 <= s < 128 && #[trigger] slot_live(fin, s) implies slot_ok(fin, s) && entry_of(
        fin,
        s,
    ) == entry_of(img, s) && (forall|p: int| slot_owns(fin, s, p) == slot_owns(img, s, p)) by {
        assert(header_rec(fin, s) == header_rec(img, s));
        assert(slot_live(img, s));
        assert(slot_ok(img, s));
        let d = slot_def(img, s);
        let m = slot_meta(img, s);
        let page = page_of(img, m);
        assert forall|i: int| 0 <= i < 128 && #[trigger] meta_rel(page, i) != 0 implies data_ok(
            fin,
            d,
            m + meta_rel(page, i),
        ) by {
            assert(data_ok(img, d, m + meta_rel(page, i)));
        }
    }
    assert forall|s: int, t: int|
        0 <= s < 128 && 0 <= t < 128 && s != t && #[trigger] slot_live(fin, s) && #[trigger] slot_live(
            fin,
            t,
        ) implies slots_apart(fin, s, t) by {
        assert(header_rec(fin, s) == header_rec(img, s));
        assert(header_rec(fin, t) == header_rec(img, t));
        assert(slot_live(img, s) && slot_live(img, t));
        assert(slots_apart(img, s, t));
        assert forall|p: int| !(#[trigger] slot_owns(fin, s, p) && slot_owns(fin, t, p)) by {
            assert(slot_owns(fin, s, p) == slot_owns(img, s, p));
            assert(slot_owns(fin, t, p) == slot_owns(img, t, p));
        }
    }
    assert(in_use_of(fin) =~= pages_without(img, s0)) by {
        assert forall|p: int| in_use_of(fin).contains(p) == pages_without(img, s0).contains(p) by {
            if slot_owns(img, s0, p) && p == 0 {
                crate::database::lemma_page_taken(img, s0, p);
            }
            if in_use_of(fin).contains(p) && p != 0 {
                let s = choose|s: int| 0 <= s < 128 && slot_live(fin, s) && #[trigger] slot_owns(fin, s, p);
                assert(slot_live(img, s) && slot_owns(img, s, p));
                assert(slots_apart(img, s, s0));
            }
            if pages_without(img, s0).contains(p) && p != 0 {
                let s = choose|s: int| 0 <= s < 128 && slot_live(img, s) && #[trigger] slot_owns(img, s, p);
                assert(s != s0);
                assert(slot_live(fin, s) && slot_owns(fin, s, p));
            }
        }
    }
    let rest = tables.remove(k);
    assert forall|j: int| 0 <= j < rest.len() implies {
        let t = #[trigger] rest[j];
        0 <= t.slot < 128 && slot_live(fin, t.slot) && t == entry_of(fin, t.slot)
    } by {
        let i = if j < k {
            j
        } else {
            j + 1
        };
        assert(rest[j] == tables[i]);
        assert(tables[i].slot != tables[k].slot);
        assert(slot_live(img, tables[i].slot));
    }
    assert forall|i: int, j: int| 0 <= i < j < rest.len() implies (#[trigger] rest[i]).slot != (
    #[trigger] rest[j]).slot by {
        let a = if i < k {
            i
        } else {
            i + 1
        };
        let b = if j < k {
            j
        } else {
            j + 1
        };
        assert(rest[i] == tables[a] && rest[j] == tables[b]);
    }
    assert forall|s: int| 0 <= s < 128 && #[trigger] slot_live(fin, s) implies exists|j: int|
        0 <= j < rest.len() && (#[trigger] rest[j]).slot == s by {
        assert(slot_live(img, s));
        let i = choose|i: int| 0 <= i < tables.len() && (#[trigger] tables[i]).slot == s;
        let j = if i < k {
            i
        } else {
            i - 1
        };
        assert(rest[j] == tables[i]);
    }
}


impl Database {
    /// The columns of a table, read from its definition page: the records
    /// before the first whose length byte is zero.
    pub fn get_table_def(&self, table_name: &str) -> (r: Result<Vec<ColumnDef>, CreateTableError>)
        requires
            self.wf(),
        ensures
            match table_def_result(self@, table_name@) {
                Ok(cols) => r is Ok && column_specs(r->Ok_0@) == cols,
                Err(e) => r == Err::<Vec<ColumnDef>, CreateTableError>(e),
            },
    {
        let info = match self.table_info(table_name) {
            Ok(info) => info,
            Err(e) => {
                return Err(e);
            },
        };
        proof {
            self.lemma_view();
        }
        let page = match self.store.read_page(info.def_page) {
            Ok(page) => page,
            Err(e) => {
                return Err(e);
            },
        };
        let mut defs: Vec<ColumnDef> = Vec::new();
        let mut i: usize = 0;
        proof {
            lemma_def_len_bounds(page@);
            assert(column_specs(defs@) =~= cols_upto(page@, 0));
        }
        while i < RECORD_COUNT
            invariant
                i <= 128,
                page@.len() == 4096,
                def_ok(page@),
                forall|j: int| 0 <= j < i ==> (#[trigger] record_of(page@, j))[0] != 0,
                column_specs(defs@) == cols_upto(page@, i as int),
                page@ == page_of(self@.image, info.def_page as int),
                table_def_result(self@, table_name@) == Ok::<Seq<ColumnSpec>, CreateTableError>(
                    def_columns(page@),
                ),
                0 <= def_len(page@) <= 128,
                forall|j: int| 0 <= j < def_len(page@) ==> (#[trigger] record_of(page@, j))[0] != 0,
                def_len(page@) < 128 ==> record_of(page@, def_len(page@))[0] == 0,
            decreases 128 - i,
        {
            match parse_def_record(page.as_slice(), i) {
                Err(e) => {
                    assert(def_len(page@) > i);
                    return Err(e);
                },
                Ok(None) => {
                    proof {
                        lemma_def_len(page@, i as int);
                    }
                    return Ok(defs);
                },
                Ok(Some(c)) => {
                    let ghost before = defs@;
                    let ghost cv = c@;
                    defs.push(c);
                    assert(column_specs(defs@) =~= column_specs(before).push(cv));
                    assert(cols_upto(page@, i + 1) =~= cols_upto(page@, i as int).push(cv));
                },
            }
            i += 1;
        }
        proof {
            lemma_def_len(page@, 128);
        }
        Ok(defs)
    }

    /// Drops a table: zeroes its header record, releases its definition
    /// page, its meta page and its data pages, and forgets it. The pages
    /// themselves are left as they are. On an error the database is
    /// unchanged.
    pub fn drop(&mut self, table_name: &str) -> (r: Result<(), CreateTableError>)
        requires
            old(self).wf(),
        ensures
            final(self).wf(),
            match drop_result(old(self)@, table_name@) {
                Ok(image) => r == Ok::<(), CreateTableError>(()) && final(self)@.image == image
                    && final(self)@.tables == old(self)@.tables.remove(old(self)@.position(table_name@)),
                Err(e) => r == Err::<(), CreateTableError>(e) && final(self)@ == old(self)@,
            },
    {
        let info = match self.table_info(table_name) {
            Ok(info) => info,
            Err(e) => {
                return Err(e);
            },
        };
        proof {
            self.lemma_view();
        }
        let ghost img = self@.image;
        let ghost tables = self@.tables;
        let ghost used = self@.in_use;
        let ghost s0 = info.slot as int;
        let meta = info.meta_page;
        let def = info.def_page;
        let ghost mp = page_of(img, meta as int);
        proof {
            lemma_drop(img, s0, tables, info.index as int);
        }
        proof {
            self.store.lemma_len();
        }
        let zero_record: Vec<u8> = vec![0u8; RECORD_LEN];
        assert(zero_record@ =~= zeros(32));
        match self.store.write_at(0, info.slot as usize * RECORD_LEN, zero_record.as_slice()) {
            Ok(()) => {},
            Err(e) => {
                return Err(e);
            },
        }
        let gone = self.header_table.remove(info.index);
        assert(table_specs(self.header_table@) =~= tables.remove(info.index as int));
        assert(gone@ == tables[info.index as int]);
        self.in_use_pages.release(def);
        self.in_use_pages.release(meta);
        let ghost offs = rel_ints(gone.table_offsets@);
        let ghost kept = used.remove(def as int).remove(meta as int);
        let mut i: usize = 0;
        assert(self.in_use_pages@ =~= kept.difference(offset_pages(meta as int, offs, 0)));
        while i < gone.table_offsets.len()
            invariant
                i <= gone.table_offsets@.len(),
                offs == rel_ints(gone.table_offsets@),
                offs == meta_rels(mp, 128),
                valid(img),
                0 <= s0 < 128,
                slot_live(img, s0),
                slot_meta(img, s0) == meta,
                slot_def(img, s0) == def,
                mp == page_of(img, meta as int),
                self.store@ == dropped_image(img, s0),
                info.index < tables.len(),
                table_specs(self.header_table@) == tables.remove(info.index as int),
                self.in_use_pages@ == kept.difference(offset_pages(meta as int, offs, i as int)),
            decreases gone.table_offsets@.len() - i,
        {
            proof {
                lemma_meta_rels_sound(mp, 128, i as int);
                let j = choose|j: int|
                    0 <= j < 128 && meta_rel(mp, j) != 0 && meta_rel(mp, j) == meta_rels(mp, 128)[i as int];
                assert(slot_ok(img, s0));
                assert(data_ok(img, def as int, meta + meta_rel(mp, j)));
                assert(offs[i as int] == gone.table_offsets@[i as int]);
            }
            self.in_use_pages.release(meta + gone.table_offsets[i]);
            proof {
                let x = meta + offs[i as int];
                let before = offset_pages(meta as int, offs, i as int);
                let after = offset_pages(meta as int, offs, i + 1);
                assert(after =~= before.insert(x)) by {
                    assert forall|q: int| after.contains(q) == before.insert(x).contains(q) by {
                        if after.contains(q) {
                            let j = choose|j: int| 0 <= j < i + 1 && q == meta + #[trigger] offs[j];
                            if j < i {
                                assert(before.contains(q));
                            }
                        }
                        if before.contains(q) {
                            let j = choose|j: int| 0 <= j < i && q == meta + #[trigger] offs[j];
                            assert(after.contains(q));
                        }
                        if q == x {
                            assert(q == meta + offs[i as int]);
                            assert(after.contains(q));
                        }
                    }
                }
                assert(self.in_use_pages@ =~= kept.difference(after));
            }
            i += 1;
        }
        proof {
            let all = offset_pages(meta as int, offs, offs.len() as int);
            assert(all =~= data_pages(mp, meta as int)) by {
                assert forall|q: int| all.contains(q) == data_pages(mp, meta as int).contains(q) by {
                    if data_pages(mp, meta as int).contains(q) {
                        let j = choose|j: int|
                            0 <= j < 128 && #[trigger] meta_rel(mp, j) != 0 && q == meta + meta_rel(mp, j);
                        lemma_meta_rels_complete(mp, 128, j);
                        let k = choose|k: int| 0 <= k < offs.len() && offs[k] == meta_rel(mp, j);
                        assert(q == meta + offs[k]);
                    }
                    if all.contains(q) {
                        let j = choose|j: int| 0 <= j < offs.len() && q == meta + #[trigger] offs[j];
                        lemma_meta_rels_sound(mp, 128, j);
                    }
                }
            }
            assert(self.in_use_pages@ =~= pages_without(img, s0));
            self.lemma_view();
        }
        Ok(())
    }
}

} // verus!
