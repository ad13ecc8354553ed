//! The catalog: what the header, definition and meta directories of a file
//! say, and the routines that parse and emit their 32-byte records.

use crate::layout::{
    be_i32, be_u16, i32_bytes, page_of, push_i32, push_u16, read_i32, read_u16, record_of, splice,
    u16_bytes, zeros, COLUMN_NAME_MAX_LEN, HEADER_DEF_AT, HEADER_META_AT, RECORD_COUNT, RECORD_LEN,
    TABLE_NAME_MAX_LEN,
};
use crate::table::{ColumnDef, ColumnSpec, CreateTableError};
use vstd::prelude::*;
use vstd::slice::slice_subrange;
use vstd::utf8::{decode_utf8, encode_utf8, valid_utf8};

verus! {

/// The text that `String::from_utf8_lossy` makes of a byte sequence.
pub uninterp spec fn utf8_lossy(bytes: Seq<u8>) -> Seq<char>;

/// Calls `String::from_utf8_lossy`, which decodes bytes as UTF-8 and puts
/// U+FFFD in place of what is not valid. The contract names the result, and
/// says that valid UTF-8 decodes to the text that it encodes.
#[verifier::external_body]
pub(crate) fn decode_name(bytes: &[u8]) -> (name: String)
    ensures
        name@ == utf8_lossy(bytes@),
        valid_utf8(bytes@) ==> name@ == decode_utf8(bytes@),
{
    String::from_utf8_lossy(bytes).into_owned()
}

/// Whether two strings hold the same text.
pub fn same_text(a: &str, b: &str) -> (r: bool)
    ensures
        r == (a@ == b@),
{
    let x = a.as_bytes();
    let y = b.as_bytes();
    if x.len() != y.len() {
        return false;
    }
    let mut i: usize = 0;
    while i < x.len()
        invariant
            i <= x@.len(),
            x@.len() == y@.len(),
            x@ == encode_utf8(a@),
            y@ == encode_utf8(b@),
            forall|k: int| 0 <= k < i ==> x@[k] == y@[k],
        decreases x@.len() - i,
    {
        if x[i] != y[i] {
            return false;
        }
        i += 1;
    }
    proof {
        assert(x@ =~= y@);
        vstd::utf8::encode_utf8_decode_utf8(a@);
        vstd::utf8::encode_utf8_decode_utf8(b@);
    }
    true
}

// ----------------------------------------------------------------------
// The header directory

/// Record `s` of the header directory.
pub open spec fn header_rec(img: Seq<u8>, s: int) -> Seq<u8> {
    record_of(page_of(img, 0), s)
}

/// A header record names a table: its length byte is not zero.
pub open spec fn rec_live(rec: Seq<u8>) -> bool {
    rec[0] != 0
}

/// The table name in a header record.
pub open spec fn rec_name(rec: Seq<u8>) -> Seq<char> {
    utf8_lossy(rec.subrange(1, 1 + rec[0]))
}

/// The definition page number in a header record.
pub open spec fn rec_def(rec: Seq<u8>) -> int {
    be_i32(rec.subrange(24, 28))
}

/// The meta page number in a header record.
pub open spec fn rec_meta(rec: Seq<u8>) -> int {
    be_i32(rec.subrange(28, 32))
}

/// What a header record says of a table.
#[derive(Debug)]
pub struct HeaderRecord {
    pub name: String,
    pub def_page: i32,
    pub meta_page: i32,
}

/// Parses record `slot` of the header page: `None` for a free slot,
/// `CorruptData` for a name longer than 23 bytes.
pub fn parse_header_record(page: &[u8], slot: usize) -> (r: Result<
    Option<HeaderRecord>,
    CreateTableError,
>)
    requires
        page@.len() == 4096,
        slot < 128,
    ensures
        match r {
            Ok(None) => !rec_live(record_of(page@, slot as int)),
            Ok(Some(h)) => {
                let rec = record_of(page@, slot as int);
                &&& rec_live(rec)
                &&& rec[0] <= 23
                &&& h.name@ == rec_name(rec)
                &&& h.def_page == rec_def(rec)
                &&& h.meta_page == rec_meta(rec)
            },
            Err(e) => e == CreateTableError::CorruptData && record_of(page@, slot as int)[0] > 23,
        },
{
    let base: usize = slot * RECORD_LEN;
    let ghost rec = record_of(page@, slot as int);
    let len: usize = page[base] as usize;
    assert(rec[0] == page@[base as int]);
    if len == 0 {
        return Ok(None);
    }
    if len > TABLE_NAME_MAX_LEN {
        return Err(CreateTableError::CorruptData);
    }
    let name = decode_name(slice_subrange(page, base + 1, base + 1 + len));
    let def_page = read_i32(page, base + HEADER_DEF_AT);
    let meta_page = read_i32(page, base + HEADER_META_AT);
    proof {
        assert(page@.subrange(base + 1, base + 1 + len) =~= rec.subrange(1, 1 + rec[0]));
        assert(page@.subrange(base + 24, base + 28) =~= rec.subrange(24, 28));
        assert(page@.subrange(base + 28, base + 32) =~= rec.subrange(28, 32));
    }
    Ok(Some(HeaderRecord { name, def_page, meta_page }))
}

/// The first bytes of a header record: the length of the name, and the name.
pub open spec fn header_name_bytes(name: Seq<char>) -> Seq<u8> {
    seq![encode_utf8(name).len() as u8] + encode_utf8(name)
}

/// The last eight bytes of a header record: the two page numbers.
pub open spec fn header_page_bytes(def_page: int, meta_page: int) -> Seq<u8> {
    i32_bytes(def_page) + i32_bytes(meta_page)
}

/// Emits the first bytes of a header record.
pub fn emit_header_name(name: &str) -> (out: Vec<u8>)
    requires
        1 <= encode_utf8(name@).len() <= 23,
    ensures
        out@ == header_name_bytes(name@),
{
    let bytes = name.as_bytes();
    let mut out: Vec<u8> = Vec::new();
    out.push(bytes.len() as u8);
    out.extend_from_slice(bytes);
    assert(out@ =~= header_name_bytes(name@));
    out
}

/// Emits the last eight bytes of a header record.
pub fn emit_header_pages(def_page: i32, meta_page: i32) -> (out: Vec<u8>)
    ensures
        out@ == header_page_bytes(def_page as int, meta_page as int),
{
    let mut out: Vec<u8> = Vec::new();
    push_i32(&mut out, def_page);
    push_i32(&mut out, meta_page);
    assert(out@ =~= header_page_bytes(def_page as int, meta_page as int));
    out
}

// ----------------------------------------------------------------------
// The meta directory

/// The relative page number in record `i` of a meta page; zero for a free
/// record.
pub open spec fn meta_rel(page: Seq<u8>, i: int) -> int {
    be_i32(page.subrange(i * 32, i * 32 + 4))
}

/// The relative page numbers of the records before `n` that are not free, in
/// the order of the records.
pub open spec fn meta_rels(page: Seq<u8>, n: int) -> Seq<int>
    decreases n,
{
    if n <= 0 {
        Seq::empty()
    } else if meta_rel(page, n - 1) != 0 {
        meta_rels(page, n - 1).push(meta_rel(page, n - 1))
    } else {
        meta_rels(page, n - 1)
    }
}

/// A write at the start of record `i` of a meta page, of four bytes or more,
/// sets the relative page number of that record and of no other.
pub proof fn lemma_meta_rel_splice(page: Seq<u8>, i: int, data: Seq<u8>, j: int)
    requires
        page.len() == 4096,
        0 <= i < 128,
        0 <= j < 128,
        4 <= data.len() <= 32,
    ensures
        j != i ==> meta_rel(splice(page, i * 32, data), j) == meta_rel(page, j),
        meta_rel(splice(page, i * 32, data), i) == be_i32(data.subrange(0, 4)),
{
    let out = splice(page, i * 32, data);
    if j != i {
        assert(out.subrange(j * 32, j * 32 + 4) =~= page.subrange(j * 32, j * 32 + 4));
    }
    assert(out.subrange(i * 32, i * 32 + 4) =~= data.subrange(0, 4));
}

/// Parses record `i` of a meta page.
pub fn parse_meta_record(page: &[u8], i: usize) -> (rel: i32)
    requires
        page@.len() == 4096,
        i < 128,
    ensures
        rel == meta_rel(page@, i as int),
{
    read_i32(page, i * RECORD_LEN)
}

/// The relative page numbers of a list, as integers.
pub open spec fn rel_ints(rels: Seq<i32>) -> Seq<int> {
    rels.map_values(|r: i32| r as int)
}

/// Parses a meta page: the relative page numbers that are not zero.
pub fn parse_meta_page(page: &[u8]) -> (rels: Vec<i32>)
    requires
        page@.len() == 4096,
    ensures
        rel_ints(rels@) == meta_rels(page@, 128),
{
    let mut rels: Vec<i32> = Vec::new();
    let mut i: usize = 0;
    assert(rel_ints(rels@) =~= meta_rels(page@, 0));
    while i < RECORD_COUNT
        invariant
            i <= 128,
            page@.len() == 4096,
            rel_ints(rels@) == meta_rels(page@, i as int),
        decreases 128 - i,
    {
        let rel = parse_meta_record(page, i);
        let ghost before = rels@;
        if rel != 0 {
            rels.push(rel);
            assert(rel_ints(rels@) =~= rel_ints(before).push(rel as int));
        }
        i += 1;
    }
    rels
}

/// Every relative page number listed for the records before `n` is the
/// number of one of those records, and is not zero.
pub proof fn lemma_meta_rels_sound(page: Seq<u8>, n: int, k: int)
    requires
        0 <= k < meta_rels(page, n).len(),
    ensures
        exists|i: int|
            0 <= i < n && meta_rel(page, i) != 0 && meta_rel(page, i) == meta_rels(page, n)[k],
    decreases n,
{
    if n <= 0 {
    } else if meta_rel(page, n - 1) != 0 && k == meta_rels(page, n).len() - 1 {
        assert(meta_rel(page, n - 1) == meta_rels(page, n)[k]);
    } else {
        lemma_meta_rels_sound(page, n - 1, k);
        let prev = meta_rels(page, n - 1);
        let i = choose|i: int| 0 <= i < n - 1 && meta_rel(page, i) != 0 && meta_rel(page, i) == prev[k];
        assert(meta_rel(page, i) == meta_rels(page, n)[k]);
    }
}

/// The number of every record before `n` that is not free is listed.
pub proof fn lemma_meta_rels_complete(page: Seq<u8>, n: int, i: int)
    requires
        0 <= i < n,
        meta_rel(page, i) != 0,
    ensures
        exists|k: int|
            0 <= k < meta_rels(page, n).len() && meta_rels(page, n)[k] == meta_rel(page, i),
    decreases n,
{
    if i == n - 1 {
        let k = meta_rels(page, n).len() - 1;
        assert(meta_rels(page, n)[k] == meta_rel(page, i));
    } else {
        lemma_meta_rels_complete(page, n - 1, i);
        let prev = meta_rels(page, n - 1);
        let k = choose|k: int| 0 <= k < prev.len() && prev[k] == meta_rel(page, i);
        assert(meta_rels(page, n)[k] == meta_rel(page, i));
    }
}

// ----------------------------------------------------------------------
// The definition directory

/// The number of column records of a definition page from record `i` on: the
/// index of the first record from `i` on whose length byte is zero, or 128.
pub open spec fn def_len_from(page: Seq<u8>, i: int) -> int
    decreases 128 - i,
{
    if i >= 128 {
        128
    } else if record_of(page, i)[0] == 0 {
        i
    } else {
        def_len_from(page, i + 1)
    }
}

/// The number of columns that a definition page lists.
pub open spec fn def_len(page: Seq<u8>) -> int {
    def_len_from(page, 0)
}

/// The column that a definition record describes: the name after the length
/// byte, then the type tag, then the width.
pub open spec fn def_column(rec: Seq<u8>) -> ColumnSpec {
    let len = rec[0] as int;
    ColumnSpec {
        name: utf8_lossy(rec.subrange(1, 1 + len)),
        column_type: rec[1 + len],
        size: be_u16(rec.subrange(2 + len, 4 + len)) as u16,
    }
}

/// The columns that the first `n` records of a definition page describe.
pub open spec fn cols_upto(page: Seq<u8>, n: int) -> Seq<ColumnSpec> {
    Seq::new(n as nat, |i: int| def_column(record_of(page, i)))
}

/// The columns that a definition page lists.
pub open spec fn def_columns(page: Seq<u8>) -> Seq<ColumnSpec> {
    cols_upto(page, def_len(page))
}

/// The sum of the widths of columns.
pub open spec fn total_size(cols: Seq<ColumnSpec>) -> int
    decreases cols.len(),
{
    if cols.len() == 0 {
        0
    } else {
        total_size(cols.drop_last()) + cols.last().size
    }
}

/// A definition page is in order: no column name is longer than 28 bytes, and
/// the row is between 1 and 4096 bytes wide.
pub open spec fn def_ok(page: Seq<u8>) -> bool {
    &&& forall|i: int| 0 <= i < def_len(page) ==> (#[trigger] record_of(page, i))[0] <= 28
    &&& 1 <= total_size(def_columns(page)) <= 4096
}

/// `n` is the number of columns of a page whose records before `n` have a
/// length byte that is not zero, and whose record `n` has none or is past the
/// last.
pub proof fn lemma_def_len(page: Seq<u8>, n: int)
    requires
        0 <= n <= 128,
        forall|j: int| 0 <= j < n ==> (#[trigger] record_of(page, j))[0] != 0,
        n < 128 ==> record_of(page, n)[0] == 0,
    ensures
        def_len(page) == n,
{
    lemma_def_len_from(page, n, 0);
}

proof fn lemma_def_len_from(page: Seq<u8>, n: int, i: int)
    requires
        0 <= i <= n <= 128,
        forall|j: int| 0 <= j < n ==> (#[trigger] record_of(page, j))[0] != 0,
        n < 128 ==> record_of(page, n)[0] == 0,
    ensures
        def_len_from(page, i) == n,
    decreases n - i,
{
    if i < n {
        lemma_def_len_from(page, n, i + 1);
    }
}

/// The number of columns is at most 128, each record before it has a length
/// byte that is not zero, and the record at it, if there is one, has none.
pub proof fn lemma_def_len_bounds(page: Seq<u8>)
    ensures
        0 <= def_len(page) <= 128,
        forall|j: int| 0 <= j < def_len(page) ==> (#[trigger] record_of(page, j))[0] != 0,
        def_len(page) < 128 ==> record_of(page, def_len(page))[0] == 0,
{
    lemma_def_len_from_bounds(page, 0);
}

proof fn lemma_def_len_from_bounds(page: Seq<u8>, i: int)
    requires
        0 <= i <= 128,
    ensures
        i <= def_len_from(page, i) <= 128,
        forall|j: int| i <= j < def_len_from(page, i) ==> (#[trigger] record_of(page, j))[0] != 0,
        def_len_from(page, i) < 128 ==> record_of(page, def_len_from(page, i))[0] == 0,
    decreases 128 - i,
{
    if i < 128 && record_of(page, i)[0] != 0 {
        lemma_def_len_from_bounds(page, i + 1);
    }
}

/// One more record adds the width of its column to the sum.
pub proof fn lemma_total_step(page: Seq<u8>, i: int)
    requires
        0 <= i,
    ensures
        total_size(cols_upto(page, i + 1)) == total_size(cols_upto(page, i)) + def_column(
            record_of(page, i),
        ).size,
{
    assert(cols_upto(page, i + 1).drop_last() =~= cols_upto(page, i));
}

/// The sum of the widths does not shrink as records are added.
pub proof fn lemma_total_mono(page: Seq<u8>, n: int, m: int)
    requires
        0 <= n <= m,
    ensures
        0 <= total_size(cols_upto(page, n)) <= total_size(cols_upto(page, m)),
    decreases m,
{
    if m == 0 {
    } else if n < m {
        lemma_total_mono(page, n, m - 1);
        lemma_total_step(page, m - 1);
    } else {
        if n > 0 {
            lemma_total_mono(page, n - 1, m - 1);
            lemma_total_step(page, m - 1);
        }
    }
}

/// The width of the rows that a definition page describes; `CorruptData`
/// where the page is not in order.
pub fn parse_row_len(page: &[u8]) -> (r: Result<u16, CreateTableError>)
    requires
        page@.len() == 4096,
    ensures
        match r {
            Ok(w) => def_ok(page@) && w == total_size(def_columns(page@)),
            Err(e) => e == CreateTableError::CorruptData && !def_ok(page@),
        },
{
    let mut total: u32 = 0;
    let mut i: usize = 0;
    proof {
        lemma_def_len_bounds(page@);
    }
    while i < RECORD_COUNT
        invariant
            i <= 128,
            page@.len() == 4096,
            forall|j: int| 0 <= j < i ==> 1 <= (#[trigger] record_of(page@, j))[0] <= 28,
            total == total_size(cols_upto(page@, i as int)),
            total <= 4096,
            0 <= def_len(page@) <= 128,
            forall|j: int|
                0 <= j < def_len(page@) ==> (#[trigger] record_of(page@, j))[0] != 0,
            def_len(page@) < 128 ==> record_of(page@, def_len(page@))[0] == 0,
        decreases 128 - i,
    {
        match parse_def_record(page, i) {
            Err(e) => {
                assert(def_len(page@) > i);
                return Err(e);
            },
            Ok(None) => {
                proof {
                    lemma_def_len(page@, i as int);
                }
                if total == 0 {
                    return Err(CreateTableError::CorruptData);
                }
                return Ok(total as u16);
            },
            Ok(Some(c)) => {
                proof {
                    lemma_total_step(page@, i as int);
                }
                total = total + c.size as u32;
                if total > 4096 {
                    proof {
                        assert(def_len(page@) > i);
                        lemma_total_mono(page@, i + 1, def_len(page@));
                    }
                    return Err(CreateTableError::CorruptData);
                }
            },
        }
        i += 1;
    }
    proof {
        lemma_def_len(page@, 128);
    }
    if total == 0 {
        return Err(CreateTableError::CorruptData);
    }
    Ok(total as u16)
}

/// Parses record `i` of a definition page: `None` for the record that ends
/// the list, `CorruptData` for a name longer than 28 bytes.
pub fn parse_def_record(page: &[u8], i: usize) -> (r: Result<Option<ColumnDef>, CreateTableError>)
    requires
        page@.len() == 4096,
        i < 128,
    ensures
        match r {
            Ok(None) => record_of(page@, i as int)[0] == 0,
            Ok(Some(c)) => 1 <= record_of(page@, i as int)[0] <= 28 && c@ == def_column(
                record_of(page@, i as int),
            ),
            Err(e) => e == CreateTableError::CorruptData && record_of(page@, i as int)[0] > 28,
        },
{
    let base: usize = i * RECORD_LEN;
    let ghost rec = record_of(page@, i as int);
    let len: usize = page[base] as usize;
    assert(rec[0] == page@[base as int]);
    if len == 0 {
        return Ok(None);
    }
    if len > COLUMN_NAME_MAX_LEN {
        return Err(CreateTableError::CorruptData);
    }
    let name = decode_name(slice_subrange(page, base + 1, base + 1 + len));
    let column_type = page[base + 1 + len];
    let size = read_u16(page, base + 2 + len);
    proof {
        assert(page@.subrange(base + 1, base + 1 + len) =~= rec.subrange(1, 1 + len));
        assert(page@.subrange(base + 2 + len, base + 4 + len) =~= rec.subrange(2 + len, 4 + len));
        assert(rec[1 + len] == page@[base + 1 + len]);
    }
    Ok(Some(ColumnDef { name, column_type, size }))
}

/// The 32 bytes of the definition record of a column: the length of the
/// name, the name, the type tag, the width, and zero bytes to the end.
pub open spec fn def_record_bytes(c: ColumnSpec) -> Seq<u8> {
    let name = encode_utf8(c.name);
    seq![name.len() as u8] + name + seq![c.column_type] + u16_bytes(c.size as int) + zeros(
        28 - name.len(),
    )
}

/// The records of the first `n` columns, one after the other.
pub open spec fn def_records(cols: Seq<ColumnSpec>, n: int) -> Seq<u8>
    decreases n,
{
    if n <= 0 {
        Seq::empty()
    } else {
        def_records(cols, n - 1) + def_record_bytes(cols[n - 1])
    }
}

/// The definition page of a list of columns: their records, then zero bytes.
pub open spec fn def_page_bytes(cols: Seq<ColumnSpec>) -> Seq<u8> {
    def_records(cols, cols.len() as int) + zeros(4096 - 32 * cols.len())
}

/// A column that a definition record can hold: its name takes 1 to 28 bytes.
pub open spec fn column_fits(c: ColumnSpec) -> bool {
    1 <= encode_utf8(c.name).len() <= 28
}

/// Emits the definition record of a column.
pub fn emit_def_record(col: &ColumnDef, out: &mut Vec<u8>)
    requires
        column_fits(col@),
    ensures
        final(out)@ == old(out)@ + def_record_bytes(col@),
        def_record_bytes(col@).len() == 32,
{
    let name = col.name.as_str().as_bytes();
    let len = name.len();
    let ghost before = out@;
    out.push(len as u8);
    out.extend_from_slice(name);
    out.push(col.column_type);
    push_u16(out, col.size);
    let mut k: usize = len;
    assert(out@ =~= before + seq![len as u8] + name@ + seq![col.column_type] + u16_bytes(
        col.size as int,
    ) + zeros(k - len));
    while k < 28
        invariant
            len <= k <= 28,
            out@ == before + seq![len as u8] + name@ + seq![col.column_type] + u16_bytes(
                col.size as int,
            ) + zeros(k - len),
        decreases 28 - k,
    {
        out.push(0u8);
        k += 1;
        assert(out@ =~= before + seq![len as u8] + name@ + seq![col.column_type] + u16_bytes(
            col.size as int,
        ) + zeros(k - len));
    }
    assert(out@ =~= before + def_record_bytes(col@));
}

} // verus!
