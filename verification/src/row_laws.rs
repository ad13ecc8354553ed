//! Laws of the row engine: what an insert does to the rows of a table.

use crate::allocator::{lemma_least_free, lowest_free};
use crate::catalog::{lemma_meta_rels_complete, meta_rel, meta_rels};
use crate::database::{
    data_ok, data_pages, in_use_of, lemma_data_page_private, slot_ok, slot_owns, with_offsets,
    DatabaseSpec, TableSpec,
};
use crate::insert::{
    first_empty_from, insert_place, insert_result, lemma_insert_page, lemma_insert_slot,
    lemma_new_page, place_from, InsertPlace,
};
use crate::laws::{law_reopen, lemma_found, lemma_no_rows};
use crate::layout::{all_zero, has_page, lemma_splice_page, page_of, splice, zeros};
use crate::rows::{
    lemma_slot_bounds, lemma_slots_in_page, matcher, page_rows, row_matches, rows_upto,
    select_result, slot_row, slots_in_page, table_rows,
};
use crate::table::ConditionSpec;
use vstd::multiset::Multiset;
use vstd::prelude::*;
use vstd::seq_lib::{lemma_multiset_commutative, to_multiset_build};

verus! {

/// The test that a row is not empty: not all its bytes are zero.
pub open spec fn is_live() -> spec_fn(Seq<u8>) -> bool {
    |row: Seq<u8>| !all_zero(row)
}

/// The rows of a table that are not empty, in the order of the file.
pub open spec fn live_rows(img: Seq<u8>, t: TableSpec) -> Seq<Seq<u8>> {
    table_rows(img, t).filter(is_live())
}

/// The rows in the data page that record `r` of the meta page lists; none
/// for a free record.
pub open spec fn record_rows(img: Seq<u8>, meta: int, w: int, r: int) -> Seq<Seq<u8>> {
    let rel = meta_rel(page_of(img, meta), r);
    if rel != 0 {
        page_rows(page_of(img, meta + rel), w, slots_in_page(w))
    } else {
        Seq::empty()
    }
}

/// A filter keeps a list whose items all pass the test.
pub proof fn lemma_filter_all<A>(s: Seq<A>, p: spec_fn(A) -> bool)
    requires
        forall|i: int| 0 <= i < s.len() ==> p(#[trigger] s[i]),
    ensures
        s.filter(p) == s,
    decreases s.len(),
{
    if s.len() == 0 {
        reveal(Seq::filter);
    } else {
        lemma_filter_all(s.drop_last(), p);
        s.drop_last().lemma_filter_push(s.last(), p);
        assert(s.drop_last().push(s.last()) =~= s);
    }
}

/// A filter keeps nothing of a list of which no item passes the test.
pub proof fn lemma_filter_none<A>(s: Seq<A>, p: spec_fn(A) -> bool)
    requires
        forall|i: int| 0 <= i < s.len() ==> !p(#[trigger] s[i]),
    ensures
        s.filter(p) == Seq::<A>::empty(),
    decreases s.len(),
{
    if s.len() == 0 {
        reveal(Seq::filter);
    } else {
        lemma_filter_none(s.drop_last(), p);
        s.drop_last().lemma_filter_push(s.last(), p);
        assert(s.drop_last().push(s.last()) =~= s);
    }
}

/// The multiset of no rows is empty.
pub proof fn lemma_no_rows_multiset()
    ensures
        Seq::<Seq<u8>>::empty().to_multiset() == Multiset::<Seq<u8>>::empty(),
{
    let none = Seq::<Seq<u8>>::empty();
    vstd::seq_lib::to_multiset_len(none);
    vstd::multiset::lemma_multiset_empty_len(none.to_multiset());
}

/// A row put in the place of an empty one is one more row that is not
/// empty, where it is not empty itself.
pub proof fn lemma_live_update(s: Seq<Seq<u8>>, j: int, x: Seq<u8>)
    requires
        0 <= j < s.len(),
        all_zero(s[j]),
        !all_zero(x),
    ensures
        s.update(j, x).filter(is_live()).to_multiset() == s.filter(is_live()).to_multiset().insert(x),
{
    let a = s.take(j);
    let b = s.skip(j + 1);
    let live = is_live();
    assert(s =~= a.push(s[j]) + b);
    assert(s.update(j, x) =~= a.push(x) + b);
    Seq::filter_distributes_over_add(a.push(s[j]), b, live);
    Seq::filter_distributes_over_add(a.push(x), b, live);
    a.lemma_filter_push(s[j], live);
    a.lemma_filter_push(x, live);
    lemma_multiset_commutative(a.filter(live), b.filter(live));
    lemma_multiset_commutative(a.filter(live).push(x), b.filter(live));
    to_multiset_build(a.filter(live), x);
    assert(a.filter(live).to_multiset().insert(x).add(b.filter(live).to_multiset()) =~= a.filter(
        live,
    ).to_multiset().add(b.filter(live).to_multiset()).insert(x));
}

/// Bytes as wide as a row written at a slot of a data page are the row of
/// that slot after it, and the rows of the other slots are as they were.
pub proof fn lemma_slot_splice(page: Seq<u8>, w: int, k: int, data: Seq<u8>, j: int)
    requires
        page.len() == 4096,
        1 <= w <= 4096,
        0 <= k < slots_in_page(w),
        0 <= j < slots_in_page(w),
        data.len() == w,
    ensures
        slot_row(splice(page, k * w, data), w, j) == if j == k {
            data
        } else {
            slot_row(page, w, j)
        },
{
    let out = splice(page, k * w, data);
    lemma_slot_bounds(w, j);
    lemma_slot_bounds(w, k);
    if j < k {
        assert(j * w + w <= k * w) by (nonlinear_arith)
            requires
                j < k,
                1 <= w,
        ;
    } else if j > k {
        assert(k * w + w <= j * w) by (nonlinear_arith)
            requires
                k < j,
                1 <= w,
        ;
    }
    assert(slot_row(out, w, j) =~= if j == k {
        data
    } else {
        slot_row(page, w, j)
    });
}

/// A row written into a slot of a data page changes the row of that slot
/// and of no other.
pub proof fn lemma_slot_rows_update(page: Seq<u8>, w: int, j: int, row: Seq<u8>)
    requires
        page.len() == 4096,
        1 <= w <= 4096,
        0 <= j < slots_in_page(w),
        row.len() == w,
    ensures
        page_rows(splice(page, j * w, row), w, slots_in_page(w)) == page_rows(
            page,
            w,
            slots_in_page(w),
        ).update(j, row),
{
    let out = splice(page, j * w, row);
    let n = slots_in_page(w);
    lemma_slots_in_page(w);
    assert forall|x: int| 0 <= x < n implies #[trigger] slot_row(out, w, x) == if x == j {
        row
    } else {
        slot_row(page, w, x)
    } by {
        lemma_slot_splice(page, w, j, row, x);
    }
    assert(page_rows(out, w, n) =~= page_rows(page, w, n).update(j, row));
}

/// A new data page holds the row in its first slot and empty rows after it.
pub proof fn lemma_new_page_rows(row: Seq<u8>, w: int)
    requires
        1 <= w <= 4096,
        row.len() == w,
    ensures
        page_rows(row + zeros(4096 - w), w, slots_in_page(w)).contains(row),
        !all_zero(row) ==> page_rows(row + zeros(4096 - w), w, slots_in_page(w)).filter(
            is_live(),
        ).to_multiset() == Multiset::<Seq<u8>>::empty().insert(row),
{
    let buf = row + zeros(4096 - w);
    let n = slots_in_page(w);
    let rows = page_rows(buf, w, n);
    lemma_slots_in_page(w);
    lemma_slot_bounds(w, 0);
    assert(rows[0] =~= row);
    let rest = rows.skip(1);
    assert forall|x: int| 0 <= x < rest.len() implies !is_live()(#[trigger] rest[x]) by {
        lemma_slot_bounds(w, x + 1);
        assert(rest[x] == slot_row(buf, w, x + 1));
        assert((x + 1) * w >= w) by (nonlinear_arith)
            requires
                x >= 0,
                w >= 1,
        ;
    }
    lemma_filter_none(rest, is_live());
    if !all_zero(row) {
        let first = Seq::<Seq<u8>>::empty().push(row);
        assert(rows =~= first + rest);
        Seq::filter_distributes_over_add(first, rest, is_live());
        Seq::<Seq<u8>>::empty().lemma_filter_push(row, is_live());
        lemma_filter_none(Seq::<Seq<u8>>::empty(), is_live());
        assert(rows.filter(is_live()) =~= first);
        to_multiset_build(Seq::<Seq<u8>>::empty(), row);
        lemma_no_rows_multiset();
    }
}

/// An empty slot found from slot `j0` on is a slot of the page, and is
/// empty.
pub proof fn lemma_first_empty(page: Seq<u8>, w: int, j0: int)
    requires
        1 <= w <= 4096,
        0 <= j0,
    ensures
        first_empty_from(page, w, j0) == -1 || (j0 <= first_empty_from(page, w, j0) < slots_in_page(w)
            && all_zero(slot_row(page, w, first_empty_from(page, w, j0)))),
    decreases slots_in_page(w) - j0,
{
    if j0 < slots_in_page(w) && !all_zero(slot_row(page, w, j0)) {
        lemma_first_empty(page, w, j0 + 1);
    }
}

/// The place found from record `i0` on is a record of the meta page: free
/// for a new page, and else one that lists a data page with the empty slot
/// named.
pub proof fn lemma_place(img: Seq<u8>, meta: int, w: int, i0: int)
    requires
        1 <= w <= 4096,
        0 <= i0,
    ensures
        match place_from(img, meta, w, i0) {
            InsertPlace::Slot { record, slot } => i0 <= record < 128 && meta_rel(
                page_of(img, meta),
                record,
            ) != 0 && 0 <= slot < slots_in_page(w) && all_zero(
                slot_row(page_of(img, meta + meta_rel(page_of(img, meta), record)), w, slot),
            ),
            InsertPlace::NewPage { record } => i0 <= record < 128 && meta_rel(page_of(img, meta), record)
                == 0,
            InsertPlace::Full => true,
        },
    decreases 128 - i0,
{
    if i0 < 128 {
        let rel = meta_rel(page_of(img, meta), i0);
        if rel != 0 {
            lemma_first_empty(page_of(img, meta + rel), w, 0);
            if first_empty_from(page_of(img, meta + rel), w, 0) < 0 {
                lemma_place(img, meta, w, i0 + 1);
            }
        }
    }
}

/// Where one record of a meta page, or its data page, changed so that its
/// rows are those it had and one more, the rows of the table are those it
/// had and that one more.
pub proof fn lemma_rows_changed(
    img: Seq<u8>,
    img2: Seq<u8>,
    meta: int,
    w: int,
    i: int,
    row: Seq<u8>,
    n: int,
)
    requires
        0 <= i < 128,
        0 <= n <= 128,
        forall|r: int|
            0 <= r < 128 && r != i ==> #[trigger] meta_rel(page_of(img2, meta), r) == meta_rel(
                page_of(img, meta),
                r,
            ),
        forall|r: int|
            0 <= r < 128 && r != i && #[trigger] meta_rel(page_of(img, meta), r) != 0 ==> page_of(
                img2,
                meta + meta_rel(page_of(img, meta), r),
            ) == page_of(img, meta + meta_rel(page_of(img, meta), r)),
        record_rows(img2, meta, w, i).contains(row),
        !all_zero(row) ==> record_rows(img2, meta, w, i).filter(is_live()).to_multiset() == record_rows(
            img,
            meta,
            w,
            i,
        ).filter(is_live()).to_multiset().insert(row),
    ensures
        n <= i ==> rows_upto(img2, meta, w, n) == rows_upto(img, meta, w, n),
        n > i ==> rows_upto(img2, meta, w, n).contains(row),
        n > i && !all_zero(row) ==> rows_upto(img2, meta, w, n).filter(is_live()).to_multiset()
            == rows_upto(img, meta, w, n).filter(is_live()).to_multiset().insert(row),
    decreases n,
{
    if n > 0 {
        lemma_rows_changed(img, img2, meta, w, i, row, n - 1);
        let live = is_live();
        let a = rows_upto(img, meta, w, n - 1);
        let a2 = rows_upto(img2, meta, w, n - 1);
        let b = record_rows(img, meta, w, n - 1);
        let b2 = record_rows(img2, meta, w, n - 1);
        assert(rows_upto(img, meta, w, n) =~= a + b);
        assert(rows_upto(img2, meta, w, n) =~= a2 + b2);
        if n - 1 != i {
            assert(meta_rel(page_of(img2, meta), n - 1) == meta_rel(page_of(img, meta), n - 1));
            assert(b2 == b);
        }
        if n > i {
            Seq::filter_distributes_over_add(a, b, live);
            Seq::filter_distributes_over_add(a2, b2, live);
            lemma_multiset_commutative(a.filter(live), b.filter(live));
            lemma_multiset_commutative(a2.filter(live), b2.filter(live));
            if n - 1 == i {
                let x = choose|x: int| 0 <= x < b2.len() && b2[x] == row;
                assert((a2 + b2)[a2.len() + x] == row);
                if !all_zero(row) {
                    assert(a.filter(live).to_multiset().add(b.filter(live).to_multiset().insert(row))
                        =~= a.filter(live).to_multiset().add(b.filter(live).to_multiset()).insert(row));
                }
            } else {
                let x = choose|x: int| 0 <= x < a2.len() && a2[x] == row;
                assert((a2 + b2)[x] == row);
                if !all_zero(row) {
                    assert(a.filter(live).to_multiset().insert(row).add(b.filter(live).to_multiset())
                        =~= a.filter(live).to_multiset().add(b.filter(live).to_multiset()).insert(row));
                }
            }
        }
    }
}

/// An insert adds the row to the table: after it the table of that name is
/// on the same pages with rows of the same width, the row is among its
/// rows, and its rows that are not empty are those of before and the row,
/// where the row is not empty itself.
pub proof fn law_insert_adds(db: DatabaseSpec, after: DatabaseSpec, name: Seq<char>, row: Seq<u8>)
    requires
        db.wf(),
        after.wf(),
        insert_result(db, name, row) is Ok,
        after.image == insert_result(db, name, row)->Ok_0,
    ensures
        db.find(name) is Some,
        after.find(name) is Some,
        ({
            let t = db.find(name)->0;
            let u = after.find(name)->0;
            &&& u.def_page == t.def_page
            &&& u.meta_page == t.meta_page
            &&& u.row_len == t.row_len
            &&& u.slot == t.slot
            &&& table_rows(after.image, u).contains(row)
            &&& !all_zero(row) ==> live_rows(after.image, u).to_multiset() == live_rows(
                db.image,
                t,
            ).to_multiset().insert(row)
        }),
{
    let t = db.find(name)->0;
    let img = db.image;
    let img2 = after.image;
    lemma_found(db, name);
    let s0 = t.slot;
    let meta = t.meta_page;
    let def = t.def_page;
    let w = t.row_len;
    let mp = page_of(img, meta);
    let k = choose|k: int| 0 <= k < db.tables.len() && #[trigger] db.tables[k] == t;
    lemma_place(img, meta, w, 0);
    assert(slot_ok(img, s0));
    match insert_place(img, t) {
        InsertPlace::Full => {},
        InsertPlace::Slot { record, slot } => {
            let i = record;
            let j = slot;
            let p = meta + meta_rel(mp, i);
            let page = page_of(img, p);
            lemma_data_page_private(img, s0, i, s0);
            lemma_slot_bounds(w, j);
            lemma_insert_slot(img, s0, i, j * w, row, db.tables);
            let now = DatabaseSpec { image: img2, tables: db.tables, in_use: in_use_of(img2) };
            assert(now.wf());
            now.lemma_find(k);
            law_reopen(now, after, name);
            assert forall|q: int| has_page(img, q) && q != p implies #[trigger] page_of(img2, q) == page_of(
                img,
                q,
            ) by {
                lemma_splice_page(img, p, j * w, row, q);
            }
            lemma_splice_page(img, p, j * w, row, p);
            assert forall|r: int|
                0 <= r < 128 && r != i && #[trigger] meta_rel(mp, r) != 0 implies page_of(
                img2,
                meta + meta_rel(mp, r),
            ) == page_of(img, meta + meta_rel(mp, r)) by {
                assert(data_ok(img, def, meta + meta_rel(mp, r)));
                if r < i {
                    assert(meta_rel(mp, r) != meta_rel(mp, i));
                } else {
                    assert(meta_rel(mp, i) != meta_rel(mp, r));
                }
            }
            lemma_slot_rows_update(page, w, j, row);
            lemma_slots_in_page(w);
            let old_rows = page_rows(page, w, slots_in_page(w));
            assert(old_rows.update(j, row)[j] == row);
            assert(old_rows[j] == slot_row(page, w, j));
            if !all_zero(row) {
                lemma_live_update(old_rows, j, row);
            }
            lemma_rows_changed(img, img2, meta, w, i, row, 128);
        },
        InsertPlace::NewPage { record } => {
            let i = record;
            let used = db.in_use;
            let q = choose|q: int| 1 <= q <= i32::MAX && !used.contains(q);
            lemma_least_free(used, 1, q);
            let p = lowest_free(used);
            let buf = row + zeros(4096 - row.len());
            assert(slot_owns(img, s0, meta));
            assert(in_use_of(img).contains(meta));
            lemma_insert_page(img, s0, i, p, buf, db.tables, k);
            lemma_new_page(img, s0, i, p, buf);
            let mp2 = page_of(img2, meta);
            let now = DatabaseSpec {
                image: img2,
                tables: db.tables.update(k, with_offsets(t, meta_rels(mp2, 128))),
                in_use: in_use_of(img2),
            };
            assert(now.wf());
            assert(now.tables[k].name == name);
            now.lemma_find(k);
            law_reopen(now, after, name);
            assert forall|r: int|
                0 <= r < 128 && r != i && #[trigger] meta_rel(mp, r) != 0 implies page_of(
                img2,
                meta + meta_rel(mp, r),
            ) == page_of(img, meta + meta_rel(mp, r)) by {
                let d = meta + meta_rel(mp, r);
                assert(data_ok(img, def, d));
                assert(data_pages(mp, meta).contains(d));
                assert(slot_owns(img, s0, d));
                assert(in_use_of(img).contains(d));
            }
            lemma_new_page_rows(row, w);
            assert(record_rows(img, meta, w, i) =~= Seq::<Seq<u8>>::empty());
            lemma_filter_none(Seq::<Seq<u8>>::empty(), is_live());
            lemma_no_rows_multiset();
            lemma_rows_changed(img, img2, meta, w, i, row, 128);
        },
    }
}

/// After an insert a select gives the row where it meets the conditions,
/// and does not give it where it does not.
pub proof fn law_select_after_insert(
    db: DatabaseSpec,
    after: DatabaseSpec,
    name: Seq<char>,
    row: Seq<u8>,
    cs: Seq<ConditionSpec>,
)
    requires
        db.wf(),
        after.wf(),
        insert_result(db, name, row) is Ok,
        after.image == insert_result(db, name, row)->Ok_0,
        select_result(after, name, cs) is Ok,
    ensures
        select_result(after, name, cs)->Ok_0.contains(row) <==> row_matches(row, cs),
{
    law_insert_adds(db, after, name, row);
    crate::laws::law_select_members(after, name, cs, row);
}

/// A select without conditions gives every row of the table.
pub proof fn law_select_all(db: DatabaseSpec, name: Seq<char>)
    requires
        db.find(name) is Some,
    ensures
        select_result(db, name, Seq::empty()) == Ok::<Seq<Seq<u8>>, crate::table::CreateTableError>(
            table_rows(db.image, db.find(name)->0),
        ),
{
    lemma_filter_all(table_rows(db.image, db.find(name)->0), matcher(Seq::empty()));
}

/// Insert number `k` of a run of inserts: the row is not empty, the insert
/// succeeds on state `k`, and state `k + 1` is on the file that it gives.
pub open spec fn insert_step(
    states: Seq<DatabaseSpec>,
    name: Seq<char>,
    rows: Seq<Seq<u8>>,
    k: int,
) -> bool {
    &&& !all_zero(rows[k])
    &&& insert_result(states[k], name, rows[k]) is Ok
    &&& states[k + 1].image == insert_result(states[k], name, rows[k])->Ok_0
}

/// Rows that are not empty, inserted one after the other into a table
/// without a data page, are the rows of the table that are not empty: a
/// select without conditions gives them, each as often as it was inserted,
/// and beside them empty rows only.
pub proof fn law_inserts_then_select(states: Seq<DatabaseSpec>, name: Seq<char>, rows: Seq<Seq<u8>>)
    requires
        states.len() == rows.len() + 1,
        forall|k: int| 0 <= k < states.len() ==> (#[trigger] states[k]).wf(),
        states[0].find(name) is Some,
        states[0].find(name)->0.offsets.len() == 0,
        forall|k: int| 0 <= k < rows.len() ==> #[trigger] insert_step(states, name, rows, k),
    ensures
        states.last().find(name) is Some,
        select_result(states.last(), name, Seq::empty()) is Ok,
        select_result(states.last(), name, Seq::empty())->Ok_0.filter(is_live()).to_multiset()
            == rows.to_multiset(),
    decreases rows.len(),
{
    let n = rows.len() as int;
    if n == 0 {
        let db = states[0];
        let t = db.find(name)->0;
        lemma_found(db, name);
        let mp = page_of(db.image, t.meta_page);
        assert forall|i: int| 0 <= i < 128 implies #[trigger] meta_rel(mp, i) == 0 by {
            if meta_rel(mp, i) != 0 {
                lemma_meta_rels_complete(mp, 128, i);
            }
        }
        lemma_no_rows(db.image, t.meta_page, t.row_len, 128);
        law_select_all(db, name);
        lemma_filter_none(Seq::<Seq<u8>>::empty(), is_live());
        assert(rows =~= Seq::<Seq<u8>>::empty());
    } else {
        let first = states.drop_last();
        let given = rows.drop_last();
        assert forall|k: int| 0 <= k < given.len() implies #[trigger] insert_step(first, name, given, k) by {
            assert(insert_step(states, name, rows, k));
        }
        assert(first[0] == states[0]);
        law_inserts_then_select(first, name, given);
        let db = states[n - 1];
        let after = states[n];
        assert(first.last() == db);
        assert(insert_step(states, name, rows, n - 1));
        law_insert_adds(db, after, name, rows[n - 1]);
        law_select_all(db, name);
        law_select_all(after, name);
        to_multiset_build(given, rows[n - 1]);
        assert(given.push(rows[n - 1]) =~= rows);
    }
}

/// Where such a run of inserts leaves no slot of the table empty, a select
/// without conditions gives the rows inserted and nothing else: as many
/// rows as were inserted, each as often as it was inserted.
pub proof fn law_inserts_fill(states: Seq<DatabaseSpec>, name: Seq<char>, rows: Seq<Seq<u8>>)
    requires
        states.len() == rows.len() + 1,
        forall|k: int| 0 <= k < states.len() ==> (#[trigger] states[k]).wf(),
        states[0].find(name) is Some,
        states[0].find(name)->0.offsets.len() == 0,
        forall|k: int| 0 <= k < rows.len() ==> #[trigger] insert_step(states, name, rows, k),
        forall|i: int|
            0 <= i < table_rows(states.last().image, states.last().find(name)->0).len() ==> !all_zero(
                #[trigger] table_rows(states.last().image, states.last().find(name)->0)[i],
            ),
    ensures
        select_result(states.last(), name, Seq::empty()) is Ok,
        select_result(states.last(), name, Seq::empty())->Ok_0.to_multiset() == rows.to_multiset(),
        select_result(states.last(), name, Seq::empty())->Ok_0.len() == rows.len(),
{
    law_inserts_then_select(states, name, rows);
    law_select_all(states.last(), name);
    let all = table_rows(states.last().image, states.last().find(name)->0);
    lemma_filter_all(all, is_live());
    vstd::seq_lib::to_multiset_len(all);
    vstd::seq_lib::to_multiset_len(rows);
}

} // verus!
