//! Laws of the row engine: what an update and a delete do to the rows of a
//! table.

use crate::catalog::{meta_rel, meta_rels};
use crate::database::{data_ok, in_use_of, meta_ok, slot_ok, with_offsets, DatabaseSpec};
use crate::delete::{
    cleared_page, delete_result, deleted_upto, lemma_cleared_page, lemma_delete, lemma_deleted_meta,
    lemma_deleted_pages, lemma_released, page_clears, released_upto,
};
use crate::laws::{law_reopen, lemma_found};
use crate::layout::{all_zero, has_page, page_of, zeros};
use crate::row_laws::{is_live, lemma_filter_none, lemma_slot_splice, live_rows, record_rows};
use crate::rows::{
    lemma_slot_bounds, lemma_slots_in_page, page_rows, row_matches, rows_upto, select_result,
    slot_row, slots_in_page, table_rows,
};
use crate::table::ConditionSpec;
use crate::update::{
    applied, lemma_applied_len, lemma_update, lemma_updated_page, lemma_updated_pages,
    lemma_updated_upto, update_result, updated_page, updated_upto,
};
use vstd::prelude::*;

verus! {

/// What an update makes of a row: the row with the fields written over it
/// where it meets the conditions, and the row itself where it does not.
pub open spec fn updater(
    cs: Seq<ConditionSpec>,
    fs: Seq<ConditionSpec>) -> spec_fn(Seq<u8>,
) -> Seq<u8> {
    |row: Seq<u8>|
        if row_matches(row, cs) {
            applied(row, fs)
        } else {
            row
        }
}

/// The test that a row does not meet the conditions.
pub open spec fn keeper(cs: Seq<ConditionSpec>) -> spec_fn(Seq<u8>) -> bool {
    |row: Seq<u8>| !row_matches(row, cs)
}

/// The update of the first `n` slots of a data page makes of each of their
/// rows what an update makes of a row, and keeps the rows of the other
/// slots.
pub proof fn lemma_updated_row(
    page: Seq<u8>,
    w: int,
    cs: Seq<ConditionSpec>,
    fs: Seq<ConditionSpec>,
    n: int,
    j: int,
)
    requires
        page.len() == 4096,
        1 <= w <= 4096,
        0 <= n <= slots_in_page(w),
        0 <= j < slots_in_page(w),
    ensures
        slot_row(updated_page(page, w, cs, fs, n), w, j) == if j < n {
            updater(cs, fs)(slot_row(page, w, j))
        } else {
            slot_row(page, w, j)
        },
    decreases n,
{
    if n > 0 {
        lemma_updated_row(page, w, cs, fs, n - 1, j);
        lemma_updated_page(page, w, cs, fs, n - 1);
        let row = slot_row(page, w, n - 1);
        if row_matches(row, cs) {
            lemma_slot_bounds(w, n - 1);
            lemma_applied_len(row, fs, fs.len() as int);
            lemma_slot_splice(updated_page(page, w, cs, fs, n - 1), w, n - 1, applied(row, fs), j);
        }
    }
}

/// After an update the rows in the data pages of the first `n` records are
/// what the update makes of the rows that were there.
pub proof fn lemma_updated_rows(
    img: Seq<u8>,
    def: int,
    meta: int,
    w: int,
    cs: Seq<ConditionSpec>,
    fs: Seq<ConditionSpec>,
    n: int,
)
    requires
        has_page(img, meta),
        meta_ok(img, def, meta),
        1 <= w <= 4096,
        0 <= n <= 128,
    ensures
        rows_upto(updated_upto(img, meta, w, cs, fs, 128), meta, w, n) == rows_upto(
            img,
            meta,
            w,
            n,
        ).map_values(updater(cs, fs)),
    decreases n,
{
    let fin = updated_upto(img, meta, w, cs, fs, 128);
    let f = updater(cs, fs);
    if n <= 0 {
        assert(rows_upto(fin, meta, w, n) =~= rows_upto(img, meta, w, n).map_values(f));
    } else {
        lemma_updated_rows(img, def, meta, w, cs, fs, n - 1);
        let mp = page_of(img, meta);
        assert forall|j: int| 0 <= j < 128 && #[trigger] meta_rel(mp, j) != 0 implies meta != meta + meta_rel(
            mp,
            j,
        ) by {}
        lemma_updated_upto(img, def, meta, w, cs, fs, 128, meta);
        let rel = meta_rel(mp, n - 1);
        let a = rows_upto(img, meta, w, n - 1);
        if rel != 0 {
            let p = meta + rel;
            let page = page_of(img, p);
            let s = slots_in_page(w);
            assert(data_ok(img, def, p));
            lemma_slots_in_page(w);
            lemma_updated_pages(img, def, meta, w, cs, fs, 128, n - 1);
            let b = page_rows(page, w, s);
            let b2 = page_rows(page_of(fin, p), w, s);
            assert(b2 =~= b.map_values(f)) by {
                assert forall|j: int| 0 <= j < s implies b2[j] == f(b[j]) by {
                    lemma_updated_row(page, w, cs, fs, s, j);
                }
            }
            assert((a + b).map_values(f) =~= a.map_values(f) + b.map_values(f));
        }
    }
}

/// An update makes of every row of the table what it makes of a row: after
/// it the table is found as before, the same pages are in use, and the rows
/// of the table are, one for one and in order, the rows of before with the
/// fields written over those that met the conditions.
pub proof fn law_update_rows(
    db: DatabaseSpec,
    after: DatabaseSpec,
    name: Seq<char>,
    cs: Seq<ConditionSpec>,
    fs: Seq<ConditionSpec>,
)
    requires
        db.wf(),
        after.wf(),
        update_result(db, name, cs, fs) is Ok,
        after.image == update_result(db, name, cs, fs)->Ok_0.0,
    ensures
        after.find(name) == db.find(name),
        after.in_use == db.in_use,
        table_rows(after.image, after.find(name)->0) == table_rows(db.image, db.find(name)->0).map_values(
            updater(cs, fs),
        ),
{
    let t = db.find(name)->0;
    lemma_found(db, name);
    let k = choose|k: int| 0 <= k < db.tables.len() && #[trigger] db.tables[k] == t;
    lemma_update(db.image, t.slot, t.row_len, cs, fs, db.tables);
    let now = DatabaseSpec { image: after.image, tables: db.tables, in_use: in_use_of(after.image) };
    assert(now.wf());
    now.lemma_find(k);
    law_reopen(now, after, name);
    assert(slot_ok(db.image, t.slot));
    lemma_updated_rows(db.image, t.def_page, t.meta_page, t.row_len, cs, fs, 128);
}

/// The delete in the first `n` slots of a data page zeroes each of their
/// rows that meets the conditions, and keeps every other row.
pub proof fn lemma_cleared_row(page: Seq<u8>, w: int, cs: Seq<ConditionSpec>, n: int, j: int)
    requires
        page.len() == 4096,
        1 <= w <= 4096,
        0 <= n <= slots_in_page(w),
        0 <= j < slots_in_page(w),
    ensures
        slot_row(cleared_page(page, w, cs, n), w, j) == if j < n && row_matches(slot_row(page, w, j), cs) {
            zeros(w)
        } else {
            slot_row(page, w, j)
        },
    decreases n,
{
    if n > 0 {
        lemma_cleared_row(page, w, cs, n - 1, j);
        lemma_cleared_page(page, w, cs, n - 1);
        if row_matches(slot_row(page, w, n - 1), cs) {
            lemma_slot_splice(cleared_page(page, w, cs, n - 1), w, n - 1, zeros(w), j);
        }
    }
}

/// Of rows of which those that meet the conditions were made empty, those
/// that are not empty are the rows of before that were not empty and did not
/// meet the conditions.
pub proof fn lemma_live_kept(s: Seq<Seq<u8>>, s2: Seq<Seq<u8>>, cs: Seq<ConditionSpec>)
    requires
        s2.len() == s.len(),
        forall|j: int| 0 <= j < s.len() && row_matches(#[trigger] s[j], cs) ==> all_zero(s2[j]),
        forall|j: int| 0 <= j < s.len() && !row_matches(#[trigger] s[j], cs) ==> s2[j] == s[j],
    ensures
        s2.filter(is_live()) == s.filter(is_live()).filter(keeper(cs)),
    decreases s.len(),
{
    if s.len() == 0 {
        lemma_filter_none(s, is_live());
        lemma_filter_none(s2, is_live());
        lemma_filter_none(Seq::<Seq<u8>>::empty(), keeper(cs));
    } else {
        let a = s.drop_last();
        let a2 = s2.drop_last();
        let x = s.last();
        let x2 = s2.last();
        assert forall|j: int| 0 <= j < a.len() && row_matches(#[trigger] a[j], cs) implies all_zero(a2[j]) by {
            assert(a[j] == s[j]);
        }
        assert forall|j: int| 0 <= j < a.len() && !row_matches(#[trigger] a[j], cs) implies a2[j] == a[j] by {
            assert(a[j] == s[j]);
        }
        lemma_live_kept(a, a2, cs);
        assert(a.push(x) =~= s);
        assert(a2.push(x2) =~= s2);
        a.lemma_filter_push(x, is_live());
        a2.lemma_filter_push(x2, is_live());
        a.filter(is_live()).lemma_filter_push(x, keeper(cs));
        assert(s[s.len() - 1] == x);
    }
}

/// Of rows that all meet the conditions or are empty, none is not empty and
/// does not meet the conditions.
pub proof fn lemma_live_gone(s: Seq<Seq<u8>>, cs: Seq<ConditionSpec>)
    requires
        forall|j: int| 0 <= j < s.len() ==> row_matches(#[trigger] s[j], cs) || all_zero(s[j]),
    ensures
        s.filter(is_live()).filter(keeper(cs)) == Seq::<Seq<u8>>::empty(),
    decreases s.len(),
{
    if s.len() == 0 {
        lemma_filter_none(s, is_live());
        lemma_filter_none(Seq::<Seq<u8>>::empty(), keeper(cs));
    } else {
        let a = s.drop_last();
        let x = s.last();
        assert forall|j: int| 0 <= j < a.len() implies row_matches(#[trigger] a[j], cs) || all_zero(a[j]) by {
            assert(a[j] == s[j]);
        }
        lemma_live_gone(a, cs);
        assert(a.push(x) =~= s);
        a.lemma_filter_push(x, is_live());
        a.filter(is_live()).lemma_filter_push(x, keeper(cs));
        assert(s[s.len() - 1] == x);
    }
}

/// After a delete the rows that are not empty in the data pages of the first
/// `n` records are those that were not empty and did not meet the
/// conditions.
pub proof fn lemma_deleted_rows(
    img: Seq<u8>,
    def: int,
    meta: int,
    w: int,
    cs: Seq<ConditionSpec>,
    n: int,
)
    requires
        has_page(img, meta),
        meta_ok(img, def, meta),
        1 <= w <= 4096,
        0 <= n <= 128,
    ensures
        rows_upto(deleted_upto(img, meta, w, cs, 128), meta, w, n).filter(is_live()) == rows_upto(
            img,
            meta,
            w,
            n,
        ).filter(is_live()).filter(keeper(cs)),
    decreases n,
{
    let fin = deleted_upto(img, meta, w, cs, 128);
    let live = is_live();
    let keep = keeper(cs);
    if n <= 0 {
        lemma_filter_none(rows_upto(img, meta, w, n), live);
        lemma_filter_none(rows_upto(fin, meta, w, n), live);
        lemma_filter_none(Seq::<Seq<u8>>::empty(), keep);
    } else {
        lemma_deleted_rows(img, def, meta, w, cs, n - 1);
        let mp = page_of(img, meta);
        let rel = meta_rel(mp, n - 1);
        let a = rows_upto(img, meta, w, n - 1);
        let a2 = rows_upto(fin, meta, w, n - 1);
        let b = record_rows(img, meta, w, n - 1);
        let b2 = record_rows(fin, meta, w, n - 1);
        assert(rows_upto(img, meta, w, n) =~= a + b);
        assert(rows_upto(fin, meta, w, n) =~= a2 + b2);
        Seq::filter_distributes_over_add(a, b, live);
        Seq::filter_distributes_over_add(a2, b2, live);
        Seq::filter_distributes_over_add(a.filter(live), b.filter(live), keep);
        lemma_deleted_meta(img, def, meta, w, cs, 128);
        lemma_slots_in_page(w);
        let s = slots_in_page(w);
        if rel == 0 {
            assert(b2 =~= b);
        } else {
            let p = meta + rel;
            let page = page_of(img, p);
            assert(data_ok(img, def, p));
            lemma_released(img, def, meta, w, cs, 128, n - 1);
            if page_clears(page, w, cs) {
                assert(b2 =~= Seq::<Seq<u8>>::empty());
                lemma_filter_none(b2, live);
                assert forall|j: int| 0 <= j < b.len() implies row_matches(#[trigger] b[j], cs) || all_zero(
                    b[j],
                ) by {
                    assert(b[j] == slot_row(page, w, j));
                }
                lemma_live_gone(b, cs);
            } else {
                lemma_deleted_pages(img, def, meta, w, cs, 128, n - 1);
                assert forall|j: int| 0 <= j < s implies #[trigger] b2[j] == if row_matches(b[j], cs) {
                    zeros(w)
                } else {
                    b[j]
                } by {
                    lemma_cleared_row(page, w, cs, s, j);
                }
                lemma_live_kept(b, b2, cs);
            }
        }
    }
}

/// A delete takes from the table the rows that meet the conditions, and no
/// other: after it the table is on the same pages with rows of the same
/// width, its rows that are not empty are, in order, those of before that
/// did not meet the conditions, and the pages in use are those of before
/// but the data pages released.
pub proof fn law_delete_rows(
    db: DatabaseSpec,
    after: DatabaseSpec,
    name: Seq<char>,
    cs: Seq<ConditionSpec>,
)
    requires
        db.wf(),
        after.wf(),
        delete_result(db, name, cs) is Ok,
        after.image == delete_result(db, name, cs)->Ok_0.0,
    ensures
        after.find(name) is Some,
        ({
            let t = db.find(name)->0;
            let u = after.find(name)->0;
            &&& u == with_offsets(t, u.offsets)
            &&& live_rows(after.image, u) == live_rows(db.image, t).filter(keeper(cs))
            &&& after.in_use == db.in_use.difference(
                released_upto(db.image, t.meta_page, t.row_len, cs, 128),
            )
        }),
{
    let t = db.find(name)->0;
    lemma_found(db, name);
    let k = choose|k: int| 0 <= k < db.tables.len() && #[trigger] db.tables[k] == t;
    lemma_delete(db.image, t.slot, t.row_len, cs, db.tables, k);
    let now = DatabaseSpec {
        image: after.image,
        tables: db.tables.update(
            k,
            with_offsets(t, meta_rels(page_of(after.image, t.meta_page), 128)),
        ),
        in_use: in_use_of(after.image),
    };
    assert(now.wf());
    assert(now.tables[k].name == name);
    now.lemma_find(k);
    law_reopen(now, after, name);
    assert(slot_ok(db.image, t.slot));
    lemma_deleted_rows(db.image, t.def_page, t.meta_page, t.row_len, cs, 128);
}

/// After a delete a select with the same conditions gives empty rows only:
/// no row that met the conditions is left in the table.
pub proof fn law_select_after_delete(
    db: DatabaseSpec,
    after: DatabaseSpec,
    name: Seq<char>,
    cs: Seq<ConditionSpec>,
    row: Seq<u8>,
)
    requires
        db.wf(),
        after.wf(),
        delete_result(db, name, cs) is Ok,
        after.image == delete_result(db, name, cs)->Ok_0.0,
        select_result(after, name, cs) is Ok,
        select_result(after, name, cs)->Ok_0.contains(row),
    ensures
        all_zero(row),
{
    law_delete_rows(db, after, name, cs);
    crate::laws::law_select_members(after, name, cs, row);
    let rows = table_rows(after.image, after.find(name)->0);
    if !all_zero(row) {
        let i = choose|i: int| 0 <= i < rows.len() && rows[i] == row;
        rows.lemma_filter_contains(is_live(), i);
        let kept = live_rows(db.image, db.find(name)->0).filter(keeper(cs));
        let j = choose|j: int| 0 <= j < kept.len() && kept[j] == row;
        live_rows(db.image, db.find(name)->0).lemma_filter_pred(keeper(cs), j);
    }
}

} // verus!
