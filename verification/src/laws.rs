//! Laws of the engine: what holds of every database in order, across
//! operations.

use crate::catalog::{meta_rel, meta_rels};
use crate::create::lemma_no_rels;
use crate::create::{columns_error, create_error, header_full};
use crate::database::{
    data_ok, data_pages, entry_of, in_use_of, slot_live, slot_name, slot_ok, slot_owns, valid,
    with_offsets, DatabaseSpec, TableSpec,
};
use crate::delete::{
    delete_result, deleted_upto, lemma_delete, lemma_deleted_meta, page_clears, released_upto,
};
use crate::layout::page_of;
use crate::rows::{matcher, row_matches, rows_upto, select_result, table_rows};
use crate::schema::{drop_result, dropped_image, lemma_drop, pages_without, table_def_result};
use crate::table::{ColumnSpec, ConditionSpec, CreateTableError};
use crate::update::update_result;
use vstd::prelude::*;
use vstd::utf8::encode_utf8;

verus! {

/// In a database in order, the table found under a name is one of the
/// handle's tables, has that name, and is what the file says in its header
/// slot, which is in order.
pub proof fn lemma_found(db: DatabaseSpec, name: Seq<char>)
    requires
        db.wf(),
        db.find(name) is Some,
    ensures
        ({
            let t = db.find(name)->0;
            &&& exists|k: int| 0 <= k < db.tables.len() && #[trigger] db.tables[k] == t
            &&& t.name == name
            &&& 0 <= t.slot < 128
            &&& slot_live(db.image, t.slot)
            &&& slot_ok(db.image, t.slot)
            &&& t == entry_of(db.image, t.slot)
            &&& 1 <= t.row_len <= 4096
        }),
{
    let k = choose|k: int| 0 <= k < db.tables.len() && (#[trigger] db.tables[k]).name == name;
    db.lemma_find(k);
}

/// In a database in order, the table in a header slot that names one is
/// found under its name.
pub proof fn lemma_find_slot(db: DatabaseSpec, s: int)
    requires
        db.wf(),
        0 <= s < 128,
        slot_live(db.image, s),
    ensures
        db.find(slot_name(db.image, s)) == Some(entry_of(db.image, s)),
{
    let k = choose|k: int| 0 <= k < db.tables.len() && (#[trigger] db.tables[k]).slot == s;
    db.lemma_find(k);
}

/// A database that is closed and opened again is the same database: the file
/// of a database in order is valid, so that it opens; and any handle in
/// order on the same file has the same pages in use, finds the same table
/// under every name, with the same pages and the same row width, and reads
/// the same columns for it.
pub proof fn law_reopen(db: DatabaseSpec, again: DatabaseSpec, name: Seq<char>)
    requires
        db.wf(),
        again.wf(),
        again.image == db.image,
    ensures
        valid(db.image),
        again.in_use == db.in_use,
        again.find(name) == db.find(name),
        table_def_result(again, name) == table_def_result(db, name),
{
    if db.find(name) is Some {
        lemma_found(db, name);
        lemma_find_slot(again, db.find(name)->0.slot);
    } else if again.find(name) is Some {
        lemma_found(again, name);
        lemma_find_slot(db, again.find(name)->0.slot);
    }
}

/// A select gives the rows of the table that meet the conditions and no
/// other: a row is among those selected exactly when it is a row of the
/// table and meets every condition.
pub proof fn law_select_members(
    db: DatabaseSpec,
    name: Seq<char>,
    cs: Seq<ConditionSpec>,
    row: Seq<u8>,
)
    requires
        db.wf(),
        select_result(db, name, cs) is Ok,
    ensures
        select_result(db, name, cs)->Ok_0.contains(row) <==> table_rows(
            db.image,
            db.find(name)->0,
        ).contains(row) && row_matches(row, cs),
{
    let rows = table_rows(db.image, db.find(name)->0);
    let hits = rows.filter(matcher(cs));
    if hits.contains(row) {
        rows.lemma_filter_contains_rev(matcher(cs), row);
        let i = choose|i: int| 0 <= i < hits.len() && hits[i] == row;
        rows.lemma_filter_pred(matcher(cs), i);
    }
    if rows.contains(row) && row_matches(row, cs) {
        let i = choose|i: int| 0 <= i < rows.len() && rows[i] == row;
        rows.lemma_filter_contains(matcher(cs), i);
    }
}

/// The number that an update gives is the number of rows that a select with
/// the same conditions gives on the database before the update.
pub proof fn law_update_count(
    db: DatabaseSpec,
    name: Seq<char>,
    cs: Seq<ConditionSpec>,
    fs: Seq<ConditionSpec>,
)
    requires
        db.wf(),
        update_result(db, name, cs, fs) is Ok,
    ensures
        select_result(db, name, cs) is Ok,
        update_result(db, name, cs, fs)->Ok_0.1 == select_result(db, name, cs)->Ok_0.len(),
{
}

/// The number that a delete gives is the number of rows that a select with
/// the same conditions gives on the database before the delete.
pub proof fn law_delete_count(db: DatabaseSpec, name: Seq<char>, cs: Seq<ConditionSpec>)
    requires
        db.wf(),
        delete_result(db, name, cs) is Ok,
    ensures
        select_result(db, name, cs) is Ok,
        delete_result(db, name, cs)->Ok_0.1 == select_result(db, name, cs)->Ok_0.len(),
{
}

/// A delete that leaves no row in any data page of the table releases every
/// data page of the table: after it the pages in use are those in use
/// before but the data pages of the table, the table has no data page, and
/// it has no row.
pub proof fn law_delete_releases(
    db: DatabaseSpec,
    after: DatabaseSpec,
    name: Seq<char>,
    cs: Seq<ConditionSpec>,
)
    requires
        db.wf(),
        after.wf(),
        delete_result(db, name, cs) is Ok,
        after.image == delete_result(db, name, cs)->Ok_0.0,
        forall|i: int|
            0 <= i < 128 && #[trigger] meta_rel(page_of(db.image, db.find(name)->0.meta_page), i) != 0
                ==> page_clears(
                page_of(
                    db.image,
                    db.find(name)->0.meta_page + meta_rel(page_of(db.image, db.find(name)->0.meta_page), i),
                ),
                db.find(name)->0.row_len,
                cs,
            ),
    ensures
        ({
            let t = db.find(name)->0;
            &&& after.in_use == db.in_use.difference(data_pages(page_of(db.image, t.meta_page), t.meta_page))
            &&& after.in_use.contains(t.def_page)
            &&& after.in_use.contains(t.meta_page)
            &&& after.find(name) == Some(with_offsets(t, Seq::empty()))
            &&& table_rows(after.image, after.find(name)->0) == Seq::<Seq<u8>>::empty()
        }),
{
    let t = db.find(name)->0;
    let img = db.image;
    lemma_found(db, name);
    let s0 = t.slot;
    let meta = t.meta_page;
    let def = t.def_page;
    let w = t.row_len;
    let mp = page_of(img, meta);
    let k = choose|k: int| 0 <= k < db.tables.len() && #[trigger] db.tables[k] == t;
    let fin = deleted_upto(img, meta, w, cs, 128);
    let mp2 = page_of(fin, meta);
    lemma_delete(img, s0, w, cs, db.tables, k);
    lemma_deleted_meta(img, def, meta, w, cs, 128);
    let gone = released_upto(img, meta, w, cs, 128);
    assert(gone =~= data_pages(mp, meta)) by {
        assert forall|q: int| gone.contains(q) == data_pages(mp, meta).contains(q) by {
            if data_pages(mp, meta).contains(q) {
                let i = choose|i: int| 0 <= i < 128 && #[trigger] meta_rel(mp, i) != 0 && q == meta + meta_rel(mp, i);
                assert(gone.contains(q));
            }
            if gone.contains(q) {
                let i = choose|i: int|
                    0 <= i < 128 && #[trigger] meta_rel(mp, i) != 0 && q == meta + meta_rel(mp, i) && page_clears(
                        page_of(img, q),
                        w,
                        cs,
                    );
                assert(data_pages(mp, meta).contains(q));
            }
        }
    }
    assert forall|i: int| 0 <= i < 128 implies #[trigger] meta_rel(mp2, i) == 0 by {
        if meta_rel(mp, i) != 0 {
            assert(data_pages(mp, meta).contains(meta + meta_rel(mp, i)));
            assert(gone.contains(meta + meta_rel(mp, i)));
        }
    }
    lemma_no_rels(mp2, 128);
    assert(meta_rels(mp2, 128) =~= Seq::<int>::empty());
    // the table after the delete
    let now = DatabaseSpec {
        image: fin,
        tables: db.tables.update(k, with_offsets(t, meta_rels(mp2, 128))),
        in_use: in_use_of(fin),
    };
    assert(now.wf());
    assert(now.tables[k].name == name);
    now.lemma_find(k);
    law_reopen(now, after, name);
    lemma_no_rows(fin, meta, w, 128);
    // its definition page and its meta page stay in use
    assert(slot_owns(img, s0, def) && slot_owns(img, s0, meta));
    assert(in_use_of(img).contains(def) && in_use_of(img).contains(meta));
    assert(!data_pages(mp, meta).contains(def) && !data_pages(mp, meta).contains(meta)) by {
        if data_pages(mp, meta).contains(def) {
            let i = choose|i: int| 0 <= i < 128 && #[trigger] meta_rel(mp, i) != 0 && def == meta + meta_rel(mp, i);
            assert(data_ok(img, def, meta + meta_rel(mp, i)));
        }
    }
}

/// A table whose meta records are all free has no row.
pub proof fn lemma_no_rows(img: Seq<u8>, meta: int, w: int, n: int)
    requires
        0 <= n <= 128,
        forall|i: int| 0 <= i < 128 ==> #[trigger] meta_rel(page_of(img, meta), i) == 0,
    ensures
        rows_upto(img, meta, w, n) == Seq::<Seq<u8>>::empty(),
    decreases n,
{
    if n > 0 {
        lemma_no_rows(img, meta, w, n - 1);
    }
}

/// A delete without conditions releases every data page of the table, for
/// every row meets an empty list of conditions.
pub proof fn law_delete_all(db: DatabaseSpec, after: DatabaseSpec, name: Seq<char>)
    requires
        db.wf(),
        after.wf(),
        db.find(name) is Some,
        after.image == delete_result(db, name, Seq::empty())->Ok_0.0,
    ensures
        delete_result(db, name, Seq::empty()) is Ok,
        ({
            let t = db.find(name)->0;
            &&& after.in_use == db.in_use.difference(data_pages(page_of(db.image, t.meta_page), t.meta_page))
            &&& after.find(name) == Some(with_offsets(t, Seq::empty()))
            &&& table_rows(after.image, after.find(name)->0) == Seq::<Seq<u8>>::empty()
        }),
{
    law_delete_releases(db, after, name, Seq::empty());
}

/// A drop releases every page of the table and forgets the table: after it
/// the pages in use are those in use before but the definition page, the
/// meta page and the data pages of the table; no table has its name; and
/// every other table is found as before.
pub proof fn law_drop_releases(
    db: DatabaseSpec,
    after: DatabaseSpec,
    name: Seq<char>,
    other: Seq<char>,
)
    requires
        db.wf(),
        after.wf(),
        drop_result(db, name) is Ok,
        after.image == drop_result(db, name)->Ok_0,
    ensures
        ({
            let t = db.find(name)->0;
            &&& after.in_use == pages_without(db.image, t.slot)
            &&& !after.in_use.contains(t.def_page)
            &&& !after.in_use.contains(t.meta_page)
            &&& forall|p: int|
                data_pages(page_of(db.image, t.meta_page), t.meta_page).contains(p) ==> !after.in_use.contains(
                    p,
                )
            &&& after.in_use.subset_of(db.in_use)
            &&& after.find(name) is None
            &&& other != name ==> after.find(other) == db.find(other)
        }),
{
    let t = db.find(name)->0;
    let img = db.image;
    lemma_found(db, name);
    let s0 = t.slot;
    let k = choose|k: int| 0 <= k < db.tables.len() && #[trigger] db.tables[k] == t;
    let fin = dropped_image(img, s0);
    lemma_drop(img, s0, db.tables, k);
    let now = DatabaseSpec { image: fin, tables: db.tables.remove(k), in_use: in_use_of(fin) };
    assert(now.wf());
    law_reopen(now, after, name);
    law_reopen(now, after, other);
    assert(now.find(name) is None) by {
        if now.find(name) is Some {
            lemma_found(now, name);
            let u = now.find(name)->0;
            let j = choose|j: int| 0 <= j < now.tables.len() && #[trigger] now.tables[j] == u;
            let i = if j < k {
                j
            } else {
                j + 1
            };
            assert(now.tables[j] == db.tables[i]);
            db.lemma_find(i);
        }
    }
    if other != name {
        if db.find(other) is Some {
            lemma_found(db, other);
            let u = db.find(other)->0;
            let i = choose|i: int| 0 <= i < db.tables.len() && #[trigger] db.tables[i] == u;
            let j = if i < k {
                i
            } else {
                i - 1
            };
            assert(now.tables[j] == db.tables[i]);
            now.lemma_find(j);
        } else if now.find(other) is Some {
            lemma_found(now, other);
            let u = now.find(other)->0;
            let j = choose|j: int| 0 <= j < now.tables.len() && #[trigger] now.tables[j] == u;
            let i = if j < k {
                j
            } else {
                j + 1
            };
            assert(now.tables[j] == db.tables[i]);
            db.lemma_find(i);
        }
    }
}

/// The header slots of the handle's tables.
pub open spec fn table_slots(tables: Seq<TableSpec>) -> Seq<int> {
    Seq::new(tables.len(), |k: int| tables[k].slot)
}

/// A database has 128 tables at most, and with 128 tables its header has no
/// free slot: no table can be created, and a create that nothing else is
/// wrong with fails with `HeaderTableFull`.
pub proof fn law_header_capacity(db: DatabaseSpec, name: Seq<char>, cols: Seq<ColumnSpec>)
    requires
        db.wf(),
    ensures
        db.tables.len() <= 128,
        db.tables.len() == 128 ==> header_full(db.image) && create_error(db, name, cols) is Some,
        db.tables.len() == 128 && 1 <= encode_utf8(name).len() <= 23 && cols.len() <= 128 && db.find(
            name,
        ) is None && columns_error(cols) is None ==> create_error(db, name, cols) == Some(
            CreateTableError::HeaderTableFull,
        ),
{
    let slots = table_slots(db.tables);
    let all = vstd::set_lib::set_int_range(0, 128);
    assert(slots.no_duplicates()) by {
        assert forall|i: int, j: int| 0 <= i < slots.len() && 0 <= j < slots.len() && i != j implies slots[i]
            != slots[j] by {
            if i < j {
                assert(db.tables[i].slot != db.tables[j].slot);
            } else {
                assert(db.tables[j].slot != db.tables[i].slot);
            }
        }
    }
    slots.unique_seq_to_set();
    vstd::set_lib::lemma_int_range(0, 128);
    assert(slots.to_set().subset_of(all)) by {
        assert forall|s: int| slots.to_set().contains(s) implies all.contains(s) by {
            let k = choose|k: int| 0 <= k < slots.len() && slots[k] == s;
            assert(db.tables[k].slot == s);
        }
    }
    vstd::set_lib::lemma_len_subset(slots.to_set(), all);
    if db.tables.len() == 128 {
        vstd::set_lib::lemma_subset_equality(slots.to_set(), all);
        assert forall|s: int| 0 <= s < 128 implies slot_live(db.image, s) by {
            assert(all.contains(s));
            assert(slots.to_set().contains(s));
            let k = choose|k: int| 0 <= k < slots.len() && slots[k] == s;
            assert(db.tables[k].slot == s);
        }
    }
}

/// What holds of every table of a database in order: its definition page
/// and its meta page differ, are not the header page and are in use, as is
/// the header page; its rows are 1 to 4096 bytes wide; and no other table
/// has its name.
pub proof fn law_invariants(db: DatabaseSpec, j: int, k: int)
    requires
        db.wf(),
        0 <= j < db.tables.len(),
        0 <= k < db.tables.len(),
    ensures
        db.in_use.contains(0),
        1 <= db.tables[k].def_page,
        1 <= db.tables[k].meta_page,
        db.tables[k].def_page != db.tables[k].meta_page,
        db.in_use.contains(db.tables[k].def_page),
        db.in_use.contains(db.tables[k].meta_page),
        1 <= db.tables[k].row_len <= 4096,
        j != k ==> db.tables[j].name != db.tables[k].name,
{
    let t = db.tables[k];
    db.lemma_find(k);
    db.lemma_find(j);
    assert(slot_live(db.image, t.slot));
    assert(slot_owns(db.image, t.slot, t.def_page) && slot_owns(db.image, t.slot, t.meta_page));
}

/// Every data page that the handle lists for a table of a database in order
/// is in use, and is neither the header page nor the definition page nor the
/// meta page of the table.
pub proof fn law_data_pages_in_use(db: DatabaseSpec, k: int, i: int)
    requires
        db.wf(),
        0 <= k < db.tables.len(),
        0 <= i < db.tables[k].offsets.len(),
    ensures
        db.in_use.contains(db.tables[k].meta_page + db.tables[k].offsets[i]),
        1 <= db.tables[k].meta_page + db.tables[k].offsets[i],
        db.tables[k].offsets[i] != 0,
        db.tables[k].meta_page + db.tables[k].offsets[i] != db.tables[k].def_page,
{
    let t = db.tables[k];
    let img = db.image;
    let mp = page_of(img, t.meta_page);
    db.lemma_find(k);
    assert(slot_live(img, t.slot));
    crate::catalog::lemma_meta_rels_sound(mp, 128, i);
    let r = choose|r: int| 0 <= r < 128 && meta_rel(mp, r) != 0 && meta_rel(mp, r) == meta_rels(mp, 128)[i];
    assert(data_ok(img, t.def_page, t.meta_page + meta_rel(mp, r)));
    assert(data_pages(mp, t.meta_page).contains(t.meta_page + meta_rel(mp, r)));
    assert(slot_owns(img, t.slot, t.meta_page + t.offsets[i]));
}

} // verus!
