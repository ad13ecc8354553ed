//! Laws of the engine: an operation on one table leaves every other table
//! as it was.

use crate::allocator::{lemma_least_free, lowest_free, lowest_free_after};
use crate::catalog::{header_rec, meta_rel};
use crate::create::{
    columns_error, create_error, create_result, free_slot, is_free_slot, lemma_created_pages,
    lemma_def_records_len,
};
use crate::database::{
    data_ok, data_pages, in_use_of, slot_def, slot_live, slot_meta, slot_ok, slot_owns, slots_apart,
    valid, DatabaseSpec,
};
use crate::delete::{delete_result, lemma_deleted_frame};
use crate::insert::{insert_place, insert_result, lemma_new_page, InsertPlace};
use crate::laws::{lemma_find_slot, lemma_found};
use crate::layout::{has_page, lemma_splice_page, lemma_splice_record, page_of, zeros};
use crate::row_laws::lemma_place;
use crate::rows::{lemma_slot_bounds, rows_upto, table_rows};
use crate::schema::{drop_result, table_def_result};
use crate::table::{ColumnSpec, ConditionSpec};
use crate::update::{lemma_updated_upto, update_result};
use vstd::prelude::*;

verus! {

/// The second file says of the table in header slot `s` what the first says:
/// the header record, the definition page, the meta page and every data page
/// of the table are the same in both.
pub open spec fn same_slot(img: Seq<u8>, img2: Seq<u8>, s: int) -> bool {
    let meta = slot_meta(img, s);
    let mp = page_of(img, meta);
    &&& header_rec(img2, s) == header_rec(img, s)
    &&& page_of(img2, slot_def(img, s)) == page_of(img, slot_def(img, s))
    &&& page_of(img2, meta) == mp
    &&& forall|i: int|
        0 <= i < 128 && #[trigger] meta_rel(mp, i) != 0 ==> page_of(img2, meta + meta_rel(mp, i))
            == page_of(img, meta + meta_rel(mp, i))
}

/// The table of the name `other` is after what it was before: it is found
/// as before, it has the columns of before, and it has the rows of before.
pub open spec fn untouched(db: DatabaseSpec, after: DatabaseSpec, other: Seq<char>) -> bool {
    &&& after.find(other) == db.find(other)
    &&& table_def_result(after, other) == table_def_result(db, other)
    &&& table_rows(after.image, after.find(other)->0) == table_rows(db.image, db.find(other)->0)
}

/// Files with the same meta page and the same data pages hold the same rows.
pub proof fn lemma_rows_same(img: Seq<u8>, img2: Seq<u8>, meta: int, w: int, n: int)
    requires
        page_of(img2, meta) == page_of(img, meta),
        forall|i: int|
            0 <= i < 128 && #[trigger] meta_rel(page_of(img, meta), i) != 0 ==> page_of(
                img2,
                meta + meta_rel(page_of(img, meta), i),
            ) == page_of(img, meta + meta_rel(page_of(img, meta), i)),
        n <= 128,
    ensures
        rows_upto(img2, meta, w, n) == rows_upto(img, meta, w, n),
    decreases n,
{
    if n > 0 {
        lemma_rows_same(img, img2, meta, w, n - 1);
    }
}

/// A table of which two databases in order say the same is the same table in
/// both.
pub proof fn law_same_slot(db: DatabaseSpec, after: DatabaseSpec, other: Seq<char>)
    requires
        db.wf(),
        after.wf(),
        db.find(other) is Some,
        same_slot(db.image, after.image, db.find(other)->0.slot),
    ensures
        untouched(db, after, other),
{
    let u = db.find(other)->0;
    lemma_found(db, other);
    lemma_find_slot(after, u.slot);
    lemma_rows_same(db.image, after.image, u.meta_page, u.row_len, 128);
}

/// In a valid database a page of one table is a page of the file, is not the
/// header page, and is no page of another table.
pub proof fn lemma_foreign_page(img: Seq<u8>, s0: int, s: int, q: int)
    requires
        valid(img),
        0 <= s0 < 128,
        0 <= s < 128,
        s != s0,
        slot_live(img, s0),
        slot_live(img, s),
        slot_owns(img, s, q),
    ensures
        1 <= q,
        has_page(img, q),
        !slot_owns(img, s0, q),
        in_use_of(img).contains(q),
{
    assert(slot_ok(img, s));
    assert(slots_apart(img, s, s0));
    let meta = slot_meta(img, s);
    let mp = page_of(img, meta);
    if data_pages(mp, meta).contains(q) {
        let i = choose|i: int| 0 <= i < 128 && #[trigger] meta_rel(mp, i) != 0 && q == meta + meta_rel(mp, i);
        assert(data_ok(img, slot_def(img, s), q));
    }
}

/// The table of another name stands in another header slot.
pub proof fn lemma_other_slot(db: DatabaseSpec, name: Seq<char>, other: Seq<char>)
    requires
        db.wf(),
        db.find(name) is Some,
        db.find(other) is Some,
        other != name,
    ensures
        db.find(other)->0.slot != db.find(name)->0.slot,
{
    lemma_found(db, name);
    lemma_found(db, other);
}

/// An update of one table leaves every other table as it was.
pub proof fn law_update_others(
    db: DatabaseSpec,
    after: DatabaseSpec,
    name: Seq<char>,
    cs: Seq<ConditionSpec>,
    fs: Seq<ConditionSpec>,
    other: Seq<char>,
)
    requires
        db.wf(),
        after.wf(),
        update_result(db, name, cs, fs) is Ok,
        after.image == update_result(db, name, cs, fs)->Ok_0.0,
        db.find(other) is Some,
        other != name,
    ensures
        untouched(db, after, other),
{
    let img = db.image;
    let t = db.find(name)->0;
    let u = db.find(other)->0;
    lemma_found(db, name);
    lemma_found(db, other);
    lemma_other_slot(db, name, other);
    let mp0 = page_of(img, t.meta_page);
    assert(slot_ok(img, t.slot));
    assert forall|q: int| q == 0 || slot_owns(img, u.slot, q) implies #[trigger] page_of(after.image, q)
        == page_of(img, q) by {
        if q != 0 {
            lemma_foreign_page(img, t.slot, u.slot, q);
        }
        assert forall|j: int| 0 <= j < 128 && #[trigger] meta_rel(mp0, j) != 0 implies q != t.meta_page
            + meta_rel(mp0, j) by {
            assert(data_ok(img, t.def_page, t.meta_page + meta_rel(mp0, j)));
            assert(data_pages(mp0, t.meta_page).contains(t.meta_page + meta_rel(mp0, j)));
        }
        lemma_updated_upto(img, t.def_page, t.meta_page, t.row_len, cs, fs, 128, q);
    }
    lemma_owned(img, after.image, u.slot);
    law_same_slot(db, after, other);
}

/// A file that has the header page and every page of a table as another
/// file has them says the same of the table.
pub proof fn lemma_owned(img: Seq<u8>, img2: Seq<u8>, s: int)
    requires
        page_of(img2, 0) == page_of(img, 0),
        forall|q: int| slot_owns(img, s, q) ==> #[trigger] page_of(img2, q) == page_of(img, q),
    ensures
        same_slot(img, img2, s),
{
    let meta = slot_meta(img, s);
    let mp = page_of(img, meta);
    assert(slot_owns(img, s, slot_def(img, s)));
    assert(slot_owns(img, s, meta));
    assert forall|i: int| 0 <= i < 128 && #[trigger] meta_rel(mp, i) != 0 implies page_of(
        img2,
        meta + meta_rel(mp, i),
    ) == page_of(img, meta + meta_rel(mp, i)) by {
        assert(data_pages(mp, meta).contains(meta + meta_rel(mp, i)));
        assert(slot_owns(img, s, meta + meta_rel(mp, i)));
    }
}

/// A delete in one table leaves every other table as it was.
pub proof fn law_delete_others(
    db: DatabaseSpec,
    after: DatabaseSpec,
    name: Seq<char>,
    cs: Seq<ConditionSpec>,
    other: Seq<char>,
)
    requires
        db.wf(),
        after.wf(),
        delete_result(db, name, cs) is Ok,
        after.image == delete_result(db, name, cs)->Ok_0.0,
        db.find(other) is Some,
        other != name,
    ensures
        untouched(db, after, other),
{
    let img = db.image;
    let t = db.find(name)->0;
    let u = db.find(other)->0;
    lemma_found(db, name);
    lemma_found(db, other);
    lemma_other_slot(db, name, other);
    let mp0 = page_of(img, t.meta_page);
    assert(slot_ok(img, t.slot));
    assert(slot_owns(img, t.slot, t.meta_page));
    assert forall|q: int| q == 0 || slot_owns(img, u.slot, q) implies #[trigger] page_of(after.image, q)
        == page_of(img, q) by {
        if q != 0 {
            lemma_foreign_page(img, t.slot, u.slot, q);
        }
        assert forall|j: int| 0 <= j < 128 && #[trigger] meta_rel(mp0, j) != 0 implies q != t.meta_page
            + meta_rel(mp0, j) by {
            assert(data_ok(img, t.def_page, t.meta_page + meta_rel(mp0, j)));
            assert(data_pages(mp0, t.meta_page).contains(t.meta_page + meta_rel(mp0, j)));
        }
        lemma_deleted_frame(img, t.def_page, t.meta_page, t.row_len, cs, 128, q);
    }
    lemma_owned(img, after.image, u.slot);
    law_same_slot(db, after, other);
}

/// An insert into one table leaves every other table as it was.
pub proof fn law_insert_others(
    db: DatabaseSpec,
    after: DatabaseSpec,
    name: Seq<char>,
    row: Seq<u8>,
    other: Seq<char>,
)
    requires
        db.wf(),
        after.wf(),
        insert_result(db, name, row) is Ok,
        after.image == insert_result(db, name, row)->Ok_0,
        db.find(other) is Some,
        other != name,
    ensures
        untouched(db, after, other),
{
    let img = db.image;
    let t = db.find(name)->0;
    let u = db.find(other)->0;
    lemma_found(db, name);
    lemma_found(db, other);
    lemma_other_slot(db, name, other);
    let mp0 = page_of(img, t.meta_page);
    assert(slot_ok(img, t.slot));
    assert(slot_owns(img, t.slot, t.meta_page));
    lemma_place(img, t.meta_page, t.row_len, 0);
    match insert_place(img, t) {
        InsertPlace::Full => {},
        InsertPlace::Slot { record, slot } => {
            let p = t.meta_page + meta_rel(mp0, record);
            assert(data_ok(img, t.def_page, p));
            assert(data_pages(mp0, t.meta_page).contains(p));
            lemma_slot_bounds(t.row_len, slot);
            assert forall|q: int| q == 0 || slot_owns(img, u.slot, q) implies #[trigger] page_of(
                after.image,
                q,
            ) == page_of(img, q) by {
                if q != 0 {
                    lemma_foreign_page(img, t.slot, u.slot, q);
                }
                lemma_splice_page(img, p, slot * t.row_len, row, q);
            }
        },
        InsertPlace::NewPage { record } => {
            let x = choose|x: int| 1 <= x <= i32::MAX && !db.in_use.contains(x);
            lemma_least_free(db.in_use, 1, x);
            let p = lowest_free(db.in_use);
            assert(in_use_of(img).contains(t.meta_page));
            lemma_new_page(img, t.slot, record, p, row + zeros(4096 - row.len()));
            assert forall|q: int| q == 0 || slot_owns(img, u.slot, q) implies #[trigger] page_of(
                after.image,
                q,
            ) == page_of(img, q) by {
                if q != 0 {
                    lemma_foreign_page(img, t.slot, u.slot, q);
                }
            }
        },
    }
    lemma_owned(img, after.image, u.slot);
    law_same_slot(db, after, other);
}

/// A drop of one table leaves every other table as it was.
pub proof fn law_drop_others(
    db: DatabaseSpec,
    after: DatabaseSpec,
    name: Seq<char>,
    other: Seq<char>,
)
    requires
        db.wf(),
        after.wf(),
        drop_result(db, name) is Ok,
        after.image == drop_result(db, name)->Ok_0,
        db.find(other) is Some,
        other != name,
    ensures
        untouched(db, after, other),
{
    let img = db.image;
    let t = db.find(name)->0;
    let u = db.find(other)->0;
    lemma_found(db, name);
    lemma_found(db, other);
    lemma_other_slot(db, name, other);
    lemma_splice_record(page_of(img, 0), t.slot, 0, zeros(32), u.slot);
    lemma_splice_page(img, 0, t.slot * 32, zeros(32), 0);
    assert(header_rec(after.image, u.slot) == header_rec(img, u.slot));
    assert(slot_ok(img, u.slot));
    let meta = slot_meta(img, u.slot);
    let mp = page_of(img, meta);
    lemma_splice_page(img, 0, t.slot * 32, zeros(32), slot_def(img, u.slot));
    lemma_splice_page(img, 0, t.slot * 32, zeros(32), meta);
    assert forall|i: int| 0 <= i < 128 && #[trigger] meta_rel(mp, i) != 0 implies page_of(
        after.image,
        meta + meta_rel(mp, i),
    ) == page_of(img, meta + meta_rel(mp, i)) by {
        assert(data_ok(img, slot_def(img, u.slot), meta + meta_rel(mp, i)));
        lemma_splice_page(img, 0, t.slot * 32, zeros(32), meta + meta_rel(mp, i));
    }
    law_same_slot(db, after, other);
}

/// A create leaves every table that was there as it was.
pub proof fn law_create_others(
    db: DatabaseSpec,
    after: DatabaseSpec,
    name: Seq<char>,
    cols: Seq<ColumnSpec>,
    other: Seq<char>,
)
    requires
        db.wf(),
        after.wf(),
        create_result(db, name, cols) is Ok,
        after.image == create_result(db, name, cols)->Ok_0,
        db.find(other) is Some,
    ensures
        untouched(db, after, other),
{
    let img = db.image;
    let u = db.find(other)->0;
    lemma_found(db, other);
    assert(create_error(db, name, cols) is None);
    let x = choose|x: int| 1 <= x <= i32::MAX && !db.in_use.contains(x);
    lemma_least_free(db.in_use, 1, x);
    let def = lowest_free(db.in_use);
    let y = choose|y: int| def + 1 <= y <= i32::MAX && !db.in_use.contains(y);
    lemma_least_free(db.in_use, def + 1, y);
    let meta = lowest_free_after(db.in_use, def);
    let s = choose|s: int| 0 <= s < 128 && !slot_live(img, s);
    lemma_free_slot(img, s);
    let s0 = free_slot(img);
    assert(columns_error(cols) is None);
    assert forall|j: int| 0 <= j < cols.len() implies crate::catalog::column_fits(#[trigger] cols[j]) by {}
    lemma_def_records_len(cols, cols.len() as int);
    lemma_created_pages(img, s0, name, cols, def, meta);
    assert(slot_ok(img, u.slot));
    assert(header_rec(after.image, u.slot) == header_rec(img, u.slot));
    let m = slot_meta(img, u.slot);
    let mp = page_of(img, m);
    assert(slot_owns(img, u.slot, slot_def(img, u.slot)) && slot_owns(img, u.slot, m));
    assert(in_use_of(img).contains(slot_def(img, u.slot)) && in_use_of(img).contains(m));
    assert forall|i: int| 0 <= i < 128 && #[trigger] meta_rel(mp, i) != 0 implies page_of(
        after.image,
        m + meta_rel(mp, i),
    ) == page_of(img, m + meta_rel(mp, i)) by {
        let q = m + meta_rel(mp, i);
        assert(data_ok(img, slot_def(img, u.slot), q));
        assert(data_pages(mp, m).contains(q));
        assert(slot_owns(img, u.slot, q));
        assert(in_use_of(img).contains(q));
    }
    law_same_slot(db, after, other);
}

/// Where a header slot names no table, one of them is the first.
pub proof fn lemma_free_slot(img: Seq<u8>, s: int)
    requires
        0 <= s < 128,
        !slot_live(img, s),
    ensures
        is_free_slot(img, free_slot(img)),
    decreases s,
{
    if forall|t: int| 0 <= t < s ==> slot_live(img, t) {
        assert(is_free_slot(img, s));
    } else {
        let t = choose|t: int| 0 <= t < s && !slot_live(img, t);
        lemma_free_slot(img, t);
    }
}

/// Create number `k` of a run of creates: it succeeds on state `k`, and
/// state `k + 1` is on the file that it gives.
pub open spec fn create_step(
    states: Seq<DatabaseSpec>,
    names: Seq<Seq<char>>,
    cols: Seq<Seq<ColumnSpec>>,
    k: int,
) -> bool {
    &&& create_result(states[k], names[k], cols[k]) is Ok
    &&& states[k + 1].image == create_result(states[k], names[k], cols[k])->Ok_0
}

/// A table stays as it is through any run of creates: it is found at the
/// end as at the start, with the columns and the rows that it had.
pub proof fn law_creates_keep(
    states: Seq<DatabaseSpec>,
    names: Seq<Seq<char>>,
    cols: Seq<Seq<ColumnSpec>>,
    other: Seq<char>,
)
    requires
        states.len() == names.len() + 1,
        cols.len() == names.len(),
        forall|k: int| 0 <= k < states.len() ==> (#[trigger] states[k]).wf(),
        forall|k: int| 0 <= k < names.len() ==> #[trigger] create_step(states, names, cols, k),
        states[0].find(other) is Some,
    ensures
        untouched(states[0], states.last(), other),
    decreases names.len(),
{
    let n = names.len() as int;
    if n > 0 {
        let first = states.drop_last();
        assert forall|k: int| 0 <= k < n - 1 implies #[trigger] create_step(
            first,
            names.drop_last(),
            cols.drop_last(),
            k,
        ) by {
            assert(create_step(states, names, cols, k));
        }
        assert(first[0] == states[0]);
        law_creates_keep(first, names.drop_last(), cols.drop_last(), other);
        assert(first.last() == states[n - 1]);
        assert(create_step(states, names, cols, n - 1));
        law_create_others(states[n - 1], states[n], names[n - 1], cols[n - 1], other);
    }
}

} // verus!
