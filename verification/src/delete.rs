//! Delete: the rows that meet the conditions are zeroed, and a data page
//! left without a row is released.

use crate::catalog::{
    lemma_meta_rel_splice, meta_rel, meta_rels, parse_meta_page, parse_meta_record,
};
use crate::database::{
    data_ok, data_pages, in_use_of, lemma_data_page_private, lemma_meta_changed, meta_ok,
    mirrors_upto, pages_after, slot_def, slot_live, slot_meta, slot_ok, slot_owns, slots_apart,
    valid, with_offsets, Database, DatabaseSpec, TableSpec,
};
use crate::insert::{is_empty_row, relisted};
use crate::layout::{
    all_zero, has_page, lemma_grown_same, lemma_splice_page, page_of, splice, write_into, zeros,
    RECORD_COUNT, RECORD_LEN,
};
use crate::rows::{
    check_conds, cond_specs, conds_ok, lemma_filter_push, lemma_slot_bounds, lemma_slots_in_page,
    matcher, page_rows, row_matches, row_matches_at, rows_upto, slot_row, slots_in_page, table_rows,
};
use crate::table::{Condition, ConditionSpec, CreateTableError};
use vstd::prelude::*;

verus! {

/// Every slot among the first `n` of the data page holds a row that meets
/// the conditions, or is empty.
pub open spec fn clears_upto(page: Seq<u8>, w: int, cs: Seq<ConditionSpec>, n: int) -> bool {
    forall|j: int|
        0 <= j < n ==> row_matches(#[trigger] slot_row(page, w, j), cs) || all_zero(slot_row(page, w, j))
}

/// A delete leaves no row in the data page: every slot holds a row that
/// meets the conditions, or is empty.
pub open spec fn page_clears(page: Seq<u8>, w: int, cs: Seq<ConditionSpec>) -> bool {
    clears_upto(page, w, cs, slots_in_page(w))
}

/// The data page after the delete in its first `n` slots: each row that
/// meets the conditions is zeroed.
pub open spec fn cleared_page(page: Seq<u8>, w: int, cs: Seq<ConditionSpec>, n: int) -> Seq<u8>
    decreases n,
{
    if n <= 0 {
        page
    } else {
        let prev = cleared_page(page, w, cs, n - 1);
        if row_matches(slot_row(page, w, n - 1), cs) {
            splice(prev, (n - 1) * w, zeros(w))
        } else {
            prev
        }
    }
}

/// The file after the delete in the data pages that the first `n` records of
/// the meta page list: a page that the delete leaves without a row is
/// released, its meta record zeroed and the page left as it is; in any other
/// page the rows that meet the conditions are zeroed.
pub open spec fn deleted_upto(
    img: Seq<u8>,
    meta: int,
    w: int,
    cs: Seq<ConditionSpec>,
    n: int,
) -> Seq<u8>
    decreases n,
{
    if n <= 0 {
        img
    } else {
        let prev = deleted_upto(img, meta, w, cs, n - 1);
        let rel = meta_rel(page_of(img, meta), n - 1);
        if rel == 0 {
            prev
        } else if page_clears(page_of(img, meta + rel), w, cs) {
            splice(prev, meta * 4096 + (n - 1) * 32, zeros(32))
        } else {
            splice(
                prev,
                (meta + rel) * 4096,
                cleared_page(page_of(img, meta + rel), w, cs, slots_in_page(w)),
            )
        }
    }
}

/// The data pages that the delete releases among those that the first `n`
/// records of the meta page list.
pub open spec fn released_upto(
    img: Seq<u8>,
    meta: int,
    w: int,
    cs: Seq<ConditionSpec>,
    n: int,
) -> Set<
    int,
> {
    Set::new(
        |q: int|
            exists|j: int|
                0 <= j < n && #[trigger] meta_rel(page_of(img, meta), j) != 0 && q == meta + meta_rel(
                    page_of(img, meta),
                    j,
                ) && page_clears(page_of(img, q), w, cs),
    )
}

/// What a delete gives: the file after it, and the number of rows that met
/// the conditions, empty slots among them. An unknown table is
/// `TableNotFound`; a condition that leaves the row is `InvalidArgument`.
pub open spec fn delete_result(db: DatabaseSpec, name: Seq<char>, cs: Seq<ConditionSpec>) -> Result<
    (Seq<u8>, int),
    CreateTableError,
> {
    match db.find(name) {
        None => Err(CreateTableError::TableNotFound),
        Some(t) => if !conds_ok(cs, t.row_len) {
            Err(CreateTableError::InvalidArgument)
        } else {
            Ok(
                (
                    deleted_upto(db.image, t.meta_page, t.row_len, cs, 128),
                    table_rows(db.image, t).filter(matcher(cs)).len() as int,
                ),
            )
        },
    }
}

/// The delete in the first `n` slots keeps the length of the page and the
/// bytes from slot `n` on.
pub proof fn lemma_cleared_page(page: Seq<u8>, w: int, cs: Seq<ConditionSpec>, n: int)
    requires
        page.len() == 4096,
        1 <= w <= 4096,
        0 <= n <= slots_in_page(w),
    ensures
        cleared_page(page, w, cs, n).len() == 4096,
        forall|x: int| n * w <= x < 4096 ==> cleared_page(page, w, cs, n)[x] == page[x],
    decreases n,
{
    if n > 0 {
        lemma_cleared_page(page, w, cs, n - 1);
        lemma_slot_bounds(w, n - 1);
    }
}

/// The delete in the data pages of the first `n` records keeps the length of
/// the file; in the meta page it zeroes the records of the pages released
/// and no other.
pub proof fn lemma_deleted_meta(
    img: Seq<u8>,
    def: int,
    meta: int,
    w: int,
    cs: Seq<ConditionSpec>,
    n: int,
)
    requires
        has_page(img, meta),
        meta_ok(img, def, meta),
        1 <= w <= 4096,
        0 <= n <= 128,
    ensures
        deleted_upto(img, meta, w, cs, n).len() == img.len(),
        forall|j: int|
            0 <= j < 128 ==> #[trigger] meta_rel(page_of(deleted_upto(img, meta, w, cs, n), meta), j) == if j
                < n && released_upto(img, meta, w, cs, n).contains(meta + meta_rel(page_of(img, meta), j)) {
                0
            } else {
                meta_rel(page_of(img, meta), j)
            },
    decreases n,
{
    let mp = page_of(img, meta);
    if n > 0 {
        lemma_deleted_meta(img, def, meta, w, cs, n - 1);
        let prev = deleted_upto(img, meta, w, cs, n - 1);
        let cur = deleted_upto(img, meta, w, cs, n);
        let rel = meta_rel(mp, n - 1);
        let before = released_upto(img, meta, w, cs, n - 1);
        let after = released_upto(img, meta, w, cs, n);
        assert forall|j: int| 0 <= j < 128 && meta_rel(mp, j) != 0 implies (after.contains(
            meta + #[trigger] meta_rel(mp, j),
        ) <==> (j < n && page_clears(page_of(img, meta + meta_rel(mp, j)), w, cs))) && (before.contains(
            meta + meta_rel(mp, j),
        ) <==> (j < n - 1 && page_clears(page_of(img, meta + meta_rel(mp, j)), w, cs))) by {
            lemma_released(img, def, meta, w, cs, n, j);
            lemma_released(img, def, meta, w, cs, n - 1, j);
        }
        if rel == 0 {
        } else if page_clears(page_of(img, meta + rel), w, cs) {
            lemma_splice_page(prev, meta, (n - 1) * 32, zeros(32), meta);
            assert(zeros(32).subrange(0, 4) =~= zeros(4));
            assert forall|j: int| 0 <= j < 128 implies #[trigger] meta_rel(page_of(cur, meta), j) == if j == n
                - 1 {
                0
            } else {
                meta_rel(page_of(prev, meta), j)
            } by {
                lemma_meta_rel_splice(page_of(prev, meta), n - 1, zeros(32), j);
            }
        } else {
            let p = meta + rel;
            assert(data_ok(img, def, p));
            lemma_slots_in_page(w);
            lemma_cleared_page(page_of(img, p), w, cs, slots_in_page(w));
            lemma_splice_page(prev, p, 0, cleared_page(page_of(img, p), w, cs, slots_in_page(w)), meta);
        }
    }
}

/// The delete in the data pages of the first `n` records keeps every page
/// but the meta page and those data pages.
pub proof fn lemma_deleted_frame(
    img: Seq<u8>,
    def: int,
    meta: int,
    w: int,
    cs: Seq<ConditionSpec>,
    n: int,
    q: int,
)
    requires
        has_page(img, meta),
        meta_ok(img, def, meta),
        1 <= w <= 4096,
        0 <= n <= 128,
        has_page(img, q),
        q != meta,
        forall|j: int|
            0 <= j < n && #[trigger] meta_rel(page_of(img, meta), j) != 0 ==> q != meta + meta_rel(
                page_of(img, meta),
                j,
            ),
    ensures
        deleted_upto(img, meta, w, cs, n).len() == img.len(),
        page_of(deleted_upto(img, meta, w, cs, n), q) == page_of(img, q),
    decreases n,
{
    if n > 0 {
        lemma_deleted_frame(img, def, meta, w, cs, n - 1, q);
        let prev = deleted_upto(img, meta, w, cs, n - 1);
        let rel = meta_rel(page_of(img, meta), n - 1);
        if rel == 0 {
        } else if page_clears(page_of(img, meta + rel), w, cs) {
            lemma_splice_page(prev, meta, (n - 1) * 32, zeros(32), q);
        } else {
            let p = meta + rel;
            assert(data_ok(img, def, p));
            lemma_slots_in_page(w);
            lemma_cleared_page(page_of(img, p), w, cs, slots_in_page(w));
            lemma_splice_page(prev, p, 0, cleared_page(page_of(img, p), w, cs, slots_in_page(w)), q);
        }
    }
}

/// A data page of the table is among those released in the first `n`
/// records exactly when its record is among them and the delete leaves no
/// row in it.
pub proof fn lemma_released(
    img: Seq<u8>,
    def: int,
    meta: int,
    w: int,
    cs: Seq<ConditionSpec>,
    n: int,
    j: int,
)
    requires
        meta_ok(img, def, meta),
        0 <= n <= 128,
        0 <= j < 128,
        meta_rel(page_of(img, meta), j) != 0,
    ensures
        released_upto(img, meta, w, cs, n).contains(meta + meta_rel(page_of(img, meta), j)) <==> j < n
            && page_clears(page_of(img, meta + meta_rel(page_of(img, meta), j)), w, cs),
{
    let mp = page_of(img, meta);
    let q = meta + meta_rel(mp, j);
    if released_upto(img, meta, w, cs, n).contains(q) {
        let i = choose|i: int|
            0 <= i < n && #[trigger] meta_rel(mp, i) != 0 && q == meta + meta_rel(mp, i) && page_clears(
                page_of(img, q),
                w,
                cs,
            );
        if i < j {
            assert(meta_rel(mp, i) != meta_rel(mp, j));
        } else if j < i {
            assert(meta_rel(mp, j) != meta_rel(mp, i));
        }
    }
}

/// The delete in the data pages of the first `n` records leaves in each of
/// those pages that it does not release the page with the rows that meet the
/// conditions zeroed.
pub proof fn lemma_deleted_pages(
    img: Seq<u8>,
    def: int,
    meta: int,
    w: int,
    cs: Seq<ConditionSpec>,
    n: int,
    j: int,
)
    requires
        has_page(img, meta),
        meta_ok(img, def, meta),
        1 <= w <= 4096,
        0 <= j < n <= 128,
        meta_rel(page_of(img, meta), j) != 0,
        !page_clears(page_of(img, meta + meta_rel(page_of(img, meta), j)), w, cs),
    ensures
        page_of(deleted_upto(img, meta, w, cs, n), meta + meta_rel(page_of(img, meta), j))
            == cleared_page(page_of(img, meta + meta_rel(page_of(img, meta), j)), w, cs, slots_in_page(w)),
    decreases n,
{
    let mp = page_of(img, meta);
    let p = meta + meta_rel(mp, j);
    let prev = deleted_upto(img, meta, w, cs, n - 1);
    let rel = meta_rel(mp, n - 1);
    assert(data_ok(img, def, p));
    lemma_slots_in_page(w);
    lemma_deleted_meta(img, def, meta, w, cs, n - 1);
    if j == n - 1 {
        assert forall|i: int| 0 <= i < n - 1 && #[trigger] meta_rel(mp, i) != 0 implies p != meta + meta_rel(
            mp,
            i,
        ) by {}
        lemma_deleted_frame(img, def, meta, w, cs, n - 1, p);
        let up = cleared_page(page_of(img, p), w, cs, slots_in_page(w));
        lemma_cleared_page(page_of(img, p), w, cs, slots_in_page(w));
        lemma_splice_page(prev, p, 0, up, p);
        assert(splice(page_of(prev, p), 0, up) =~= up);
    } else {
        lemma_deleted_pages(img, def, meta, w, cs, n - 1, j);
        if rel != 0 {
            let q = meta + rel;
            assert(data_ok(img, def, q));
            assert(meta_rel(mp, j) != meta_rel(mp, n - 1));
            if page_clears(page_of(img, q), w, cs) {
                lemma_splice_page(prev, meta, (n - 1) * 32, zeros(32), p);
            } else {
                lemma_cleared_page(page_of(img, q), w, cs, slots_in_page(w));
                lemma_splice_page(prev, q, 0, cleared_page(page_of(img, q), w, cs, slots_in_page(w)), p);
            }
        }
    }
}

/// A delete keeps the database valid; the pages in use after it are those in
/// use before but the pages released, and the table has the data pages that
/// its meta page lists after it.
pub proof fn lemma_delete(
    img: Seq<u8>,
    s0: int,
    w: int,
    cs: Seq<ConditionSpec>,
    tables: Seq<TableSpec>,
    k: int,
)
    requires
        valid(img),
        0 <= s0 < 128,
        slot_live(img, s0),
        1 <= w <= 4096,
        mirrors_upto(img, tables, 128),
        0 <= k < tables.len(),
        tables[k].slot == s0,
    ensures
        ({
            let meta = slot_meta(img, s0);
            let fin = deleted_upto(img, meta, w, cs, 128);
            &&& has_page(fin, meta)
            &&& fin.len() == img.len()
            &&& valid(fin)
            &&& in_use_of(fin) == in_use_of(img).difference(released_upto(img, meta, w, cs, 128))
            &&& mirrors_upto(
                fin,
                tables.update(k, with_offsets(tables[k], meta_rels(page_of(fin, meta), 128))),
                128,
            )
        }),
{
    let meta = slot_meta(img, s0);
    let def = slot_def(img, s0);
    let mp = page_of(img, meta);
    let fin = deleted_upto(img, meta, w, cs, 128);
    let mp2 = page_of(fin, meta);
    let gone = released_upto(img, meta, w, cs, 128);
    assert(slot_ok(img, s0));
    lemma_deleted_meta(img, def, meta, w, cs, 128);
    assert forall|q: int|
        has_page(img, q) && q != meta && !data_pages(mp, meta).contains(q) implies #[trigger] page_of(fin, q)
        == page_of(img, q) by {
        assert forall|j: int| 0 <= j < 128 && #[trigger] meta_rel(mp, j) != 0 implies q != meta + meta_rel(
            mp,
            j,
        ) by {}
        lemma_deleted_frame(img, def, meta, w, cs, 128, q);
    }
    assert(!data_pages(mp, meta).contains(0)) by {
        if data_pages(mp, meta).contains(0) {
            let j = choose|j: int| 0 <= j < 128 && #[trigger] meta_rel(mp, j) != 0 && 0 == meta + meta_rel(mp, j);
            assert(data_ok(img, def, meta + meta_rel(mp, j)));
        }
    }
    assert(page_of(fin, 0) == page_of(img, 0));
    assert forall|s: int| 0 <= s < 128 && #[trigger] slot_live(img, s) implies page_of(fin, slot_def(img, s))
        == page_of(img, slot_def(img, s)) && (s != s0 ==> page_of(fin, slot_meta(img, s)) == page_of(
        img,
        slot_meta(img, s),
    )) by {
        assert(slot_ok(img, s));
        let d = slot_def(img, s);
        let m = slot_meta(img, s);
        if data_pages(mp, meta).contains(d) {
            let j = choose|j: int| 0 <= j < 128 && #[trigger] meta_rel(mp, j) != 0 && d == meta + meta_rel(mp, j);
            lemma_data_page_private(img, s0, j, s);
        }
        if data_pages(mp, meta).contains(m) {
            let j = choose|j: int| 0 <= j < 128 && #[trigger] meta_rel(mp, j) != 0 && m == meta + meta_rel(mp, j);
            lemma_data_page_private(img, s0, j, s);
        }
        if s != s0 {
            assert(slots_apart(img, s, s0));
            assert(slot_owns(img, s, m) && slot_owns(img, s0, meta));
        }
    }
    assert forall|j: int| 0 <= j < 128 && #[trigger] meta_rel(mp2, j) != 0 implies data_ok(
        fin,
        def,
        meta + meta_rel(mp2, j),
    ) by {
        assert(meta_rel(mp2, j) == meta_rel(mp, j));
        assert(data_ok(img, def, meta + meta_rel(mp, j)));
    }
    assert forall|i: int, j: int| 0 <= i < j < 128 && #[trigger] meta_rel(mp2, i) != 0 implies meta_rel(mp2, i)
        != #[trigger] meta_rel(mp2, j) by {
        assert(meta_rel(mp2, i) == meta_rel(mp, i));
        assert(meta_rel(mp, i) != meta_rel(mp, j));
    }
    assert forall|q: int| #[trigger] data_pages(mp2, meta).contains(q) implies data_pages(mp, meta).contains(
        q,
    ) && !gone.contains(q) by {
        let j = choose|j: int| 0 <= j < 128 && #[trigger] meta_rel(mp2, j) != 0 && q == meta + meta_rel(mp2, j);
        assert(meta_rel(mp2, j) == meta_rel(mp, j));
    }
    lemma_meta_changed(img, fin, s0, tables, k);
    assert(in_use_of(img).difference(gone) =~= pages_after(in_use_of(img), mp, mp2, meta)) by {
        assert forall|q: int| in_use_of(img).difference(gone).contains(q) == pages_after(
            in_use_of(img),
            mp,
            mp2,
            meta,
        ).contains(q) by {
            if data_pages(mp, meta).contains(q) {
                let j = choose|j: int| 0 <= j < 128 && #[trigger] meta_rel(mp, j) != 0 && q == meta + meta_rel(mp, j);
                assert(slot_owns(img, s0, q));
                assert(in_use_of(img).contains(q));
                if !gone.contains(q) {
                    assert(meta_rel(mp2, j) == meta_rel(mp, j));
                    assert(data_pages(mp2, meta).contains(q));
                }
            }
            if gone.contains(q) {
                let j = choose|j: int|
                    0 <= j < 128 && #[trigger] meta_rel(mp, j) != 0 && q == meta + meta_rel(mp, j) && page_clears(
                        page_of(img, q),
                        w,
                        cs,
                    );
                assert(data_pages(mp, meta).contains(q));
            }
        }
    }
}

/// Zeroes the rows of a data page that meet the conditions. Gives the number
/// of those rows, whether the page is left without a row, and whether it was
/// changed.
fn clear_page(page: &mut Vec<u8>, w: usize, conditions: &[Condition]) -> (r: (usize, bool, bool))
    requires
        old(page)@.len() == 4096,
        1 <= w <= 4096,
        conds_ok(cond_specs(conditions@), w as int),
    ensures
        final(page)@ == cleared_page(old(page)@, w as int, cond_specs(conditions@), slots_in_page(w as int)),
        r.0 == page_rows(old(page)@, w as int, slots_in_page(w as int)).filter(
            matcher(cond_specs(conditions@)),
        ).len(),
        r.0 <= 4096,
        final(page)@.len() == 4096,
        r.1 == page_clears(old(page)@, w as int, cond_specs(conditions@)),
        !r.2 ==> final(page)@ == old(page)@,
{
    let ghost orig = page@;
    let ghost cs = cond_specs(conditions@);
    let slots: usize = 4096 / w;
    let zero_row: Vec<u8> = vec![0u8; w];
    assert(zero_row@ =~= zeros(w as int));
    let mut count: usize = 0;
    let mut clears = true;
    let mut changed = false;
    let mut j: usize = 0;
    let mut at: usize = 0;
    proof {
        lemma_slots_in_page(w as int);
        assert(page_rows(orig, w as int, 0).filter(matcher(cs)).len() == 0) by {
            reveal(Seq::filter);
        }
    }
    while j < slots
        invariant
            j <= slots <= 4096,
            at == j * w,
            1 <= w <= 4096,
            slots == slots_in_page(w as int),
            orig.len() == 4096,
            cs == cond_specs(conditions@),
            conds_ok(cs, w as int),
            zero_row@ == zeros(w as int),
            page@ == cleared_page(orig, w as int, cs, j as int),
            page@.len() == 4096,
            !changed ==> page@ == orig,
            count == page_rows(orig, w as int, j as int).filter(matcher(cs)).len(),
            count <= j,
            clears == clears_upto(orig, w as int, cs, j as int),
        decreases slots - j,
    {
        proof {
            lemma_slot_bounds(w as int, j as int);
            lemma_cleared_page(orig, w as int, cs, j as int);
        }
        let ghost rows = page_rows(orig, w as int, j as int);
        let ghost row = slot_row(orig, w as int, j as int);
        assert(page@.subrange(at as int, at + w) =~= row);
        if row_matches_at(page.as_slice(), at, w, conditions) {
            write_into(page, at, zero_row.as_slice());
            count += 1;
            changed = true;
        } else if !is_empty_row(page.as_slice(), at, w) {
            clears = false;
        }
        proof {
            lemma_filter_push(rows, row, cs);
            assert(page_rows(orig, w as int, j + 1) =~= rows.push(row));
        }
        j += 1;
        at += w;
    }
    (count, clears, changed)
}

impl Database {
    /// Deletes the rows of the table that meet the conditions, and gives
    /// their number; empty slots that meet them are counted too. A data page
    /// in which every slot met the conditions or was empty is released: its
    /// meta record is zeroed and the page is no longer in use. In the other
    /// pages the rows that met the conditions are zeroed. On an error the
    /// database is unchanged.
    pub fn delete(&mut self, table_name: &str, conditions: &[Condition]) -> (r: Result<
        usize,
        CreateTableError,
    >)
        requires
            old(self).wf(),
        ensures
            final(self).wf(),
            match delete_result(old(self)@, table_name@, cond_specs(conditions@)) {
                Ok((image, count)) => r matches Ok(n) && n == count && final(self)@.image == image
                    && final(self)@.tables == relisted(old(self)@, table_name@, image),
                Err(e) => r == Err::<usize, CreateTableError>(e) && final(self)@ == old(self)@,
            },
    {
        let info = match self.table_info(table_name) {
            Ok(info) => info,
            Err(e) => {
                return Err(e);
            },
        };
        let w: usize = info.row_len as usize;
        if !check_conds(conditions, w) {
            return Err(CreateTableError::InvalidArgument);
        }
        proof {
            self.lemma_view();
        }
        let meta = info.meta_page;
        let ghost def = info.def_page as int;
        let ghost s0 = info.slot as int;
        let ghost img = self@.image;
        let ghost tables = self@.tables;
        let ghost used = self@.in_use;
        let ghost cs = cond_specs(conditions@);
        let ghost mp = page_of(img, meta as int);
        let meta_page = match self.store.read_page(meta) {
            Ok(page) => page,
            Err(e) => {
                return Err(e);
            },
        };
        let zero_record: Vec<u8> = vec![0u8; RECORD_LEN];
        assert(zero_record@ =~= zeros(32));
        proof {
            self.store.lemma_len();
        }
        let mut count: usize = 0;
        let mut i: usize = 0;
        proof {
            assert(rows_upto(img, meta as int, w as int, 0).filter(matcher(cs)).len() == 0) by {
                reveal(Seq::filter);
            }
            assert(self.in_use_pages@ =~= used.difference(released_upto(img, meta as int, w as int, cs, 0)));
        }
        while i < RECORD_COUNT
            invariant
                i <= 128,
                cs == cond_specs(conditions@),
                conds_ok(cs, w as int),
                1 <= w <= 4096,
                1 <= meta,
                mp == page_of(img, meta as int),
                meta_page@ == mp,
                zero_record@ == zeros(32),
                has_page(img, meta as int),
                meta_ok(img, def, meta as int),
                img.len() <= usize::MAX,
                self.store@ == deleted_upto(img, meta as int, w as int, cs, i as int),
                self.header_table == old(self).header_table,
                self.in_use_pages@ == used.difference(released_upto(img, meta as int, w as int, cs, i as int)),
                count == rows_upto(img, meta as int, w as int, i as int).filter(matcher(cs)).len(),
                count <= i * 4096,
            decreases 128 - i,
        {
            let rel = parse_meta_record(meta_page.as_slice(), i);
            let ghost gone = released_upto(img, meta as int, w as int, cs, i as int);
            if rel != 0 {
                let ghost p = meta + rel;
                proof {
                    assert(data_ok(img, def, p));
                    assert forall|j: int| 0 <= j < i && #[trigger] meta_rel(mp, j) != 0 implies p != meta
                        + meta_rel(mp, j) by {}
                    lemma_deleted_frame(img, def, meta as int, w as int, cs, i as int, p);
                    lemma_deleted_meta(img, def, meta as int, w as int, cs, i as int);
                }
                let mut page = match self.store.read_page(meta + rel) {
                    Ok(page) => page,
                    Err(e) => {
                        return Err(e);
                    },
                };
                let ghost orig = page@;
                let (found, clears, changed) = clear_page(&mut page, w, conditions);
                let ghost before = self.store@;
                proof {
                    let done = rows_upto(img, meta as int, w as int, i as int);
                    let here = page_rows(orig, w as int, slots_in_page(w as int));
                    Seq::<Seq<u8>>::filter_distributes_over_add(done, here, matcher(cs));
                    lemma_grown_same(before, p);
                    lemma_grown_same(before, meta as int);
                }
                if clears {
                    match self.store.write_at(meta, i * RECORD_LEN, zero_record.as_slice()) {
                        Ok(()) => {},
                        Err(e) => {
                            return Err(e);
                        },
                    }
                    self.in_use_pages.release(meta + rel);
                    proof {
                        let next = released_upto(img, meta as int, w as int, cs, i + 1);
                        assert(self.in_use_pages@ =~= used.difference(next)) by {
                            assert forall|q: int| self.in_use_pages@.contains(q) == used.difference(next).contains(
                                q,
                            ) by {
                                if q == p {
                                    assert(meta_rel(mp, i as int) != 0 && q == meta + meta_rel(mp, i as int));
                                    assert(next.contains(q));
                                }
                                if next.contains(q) && !gone.contains(q) {
                                    let j = choose|j: int|
                                        0 <= j < i + 1 && #[trigger] meta_rel(mp, j) != 0 && q == meta + meta_rel(
                                            mp,
                                            j,
                                        ) && page_clears(page_of(img, q), w as int, cs);
                                    assert(j == i);
                                }
                                if gone.contains(q) {
                                    let j = choose|j: int|
                                        0 <= j < i && #[trigger] meta_rel(mp, j) != 0 && q == meta + meta_rel(
                                            mp,
                                            j,
                                        ) && page_clears(page_of(img, q), w as int, cs);
                                    assert(next.contains(q));
                                }
                            }
                        }
                    }
                } else {
                    if changed {
                        match self.store.write_at(meta + rel, 0, page.as_slice()) {
                            Ok(()) => {},
                            Err(e) => {
                                return Err(e);
                            },
                        }
                    } else {
                        assert(before =~= splice(before, p * 4096, page@));
                    }
                    proof {
                        let next = released_upto(img, meta as int, w as int, cs, i + 1);
                        assert(gone =~= next) by {
                            assert forall|q: int| gone.contains(q) == next.contains(q) by {
                                if next.contains(q) {
                                    let j = choose|j: int|
                                        0 <= j < i + 1 && #[trigger] meta_rel(mp, j) != 0 && q == meta + meta_rel(
                                            mp,
                                            j,
                                        ) && page_clears(page_of(img, q), w as int, cs);
                                    assert(j != i);
                                    assert(gone.contains(q));
                                }
                                if gone.contains(q) {
                                    let j = choose|j: int|
                                        0 <= j < i && #[trigger] meta_rel(mp, j) != 0 && q == meta + meta_rel(
                                            mp,
                                            j,
                                        ) && page_clears(page_of(img, q), w as int, cs);
                                    assert(next.contains(q));
                                }
                            }
                        }
                    }
                }
                count += found;
            } else {
                proof {
                    let next = released_upto(img, meta as int, w as int, cs, i + 1);
                    assert(gone =~= next) by {
                        assert forall|q: int| gone.contains(q) == next.contains(q) by {
                            if next.contains(q) {
                                let j = choose|j: int|
                                    0 <= j < i + 1 && #[trigger] meta_rel(mp, j) != 0 && q == meta + meta_rel(mp, j)
                                        && page_clears(page_of(img, q), w as int, cs);
                                assert(gone.contains(q));
                            }
                            if gone.contains(q) {
                                let j = choose|j: int|
                                    0 <= j < i && #[trigger] meta_rel(mp, j) != 0 && q == meta + meta_rel(mp, j)
                                        && page_clears(page_of(img, q), w as int, cs);
                                assert(next.contains(q));
                            }
                        }
                    }
                }
            }
            i += 1;
        }
        proof {
            lemma_delete(img, s0, w as int, cs, tables, info.index as int);
        }
        let new_meta = match self.store.read_page(meta) {
            Ok(page) => page,
            Err(e) => {
                return Err(e);
            },
        };
        let rels = parse_meta_page(new_meta.as_slice());
        self.set_offsets(info.index, rels);
        proof {
            self.lemma_view();
        }
        Ok(count)
    }
}

} // verus!
