//! The file layout: pages, 32-byte directory records and big-endian integers,
//! as functions on byte sequences.

use vstd::prelude::*;

verus! {

/// Bytes in a page.
pub const PAGE_SIZE: usize = 4096;

/// Bytes in a directory record.
pub const RECORD_LEN: usize = 32;

/// Records in a directory page.
pub const RECORD_COUNT: usize = 128;

/// Longest table name, in bytes.
pub const TABLE_NAME_MAX_LEN: usize = 23;

/// Longest column name, in bytes.
pub const COLUMN_NAME_MAX_LEN: usize = 28;

/// Offset of the definition page number in a header record.
pub const HEADER_DEF_AT: usize = 24;

/// Offset of the meta page number in a header record.
pub const HEADER_META_AT: usize = 28;

/// The file `img` holds all of page `n`.
pub open spec fn has_page(img: Seq<u8>, n: int) -> bool {
    0 <= n && (n + 1) * 4096 <= img.len()
}

/// The bytes of page `n`.
pub open spec fn page_of(img: Seq<u8>, n: int) -> Seq<u8> {
    img.subrange(n * 4096, n * 4096 + 4096)
}

/// The bytes of record `i` of a directory page.
pub open spec fn record_of(page: Seq<u8>, i: int) -> Seq<u8> {
    page.subrange(i * 32, i * 32 + 32)
}

/// `img` with `data` written over the bytes from `at` on.
pub open spec fn splice(img: Seq<u8>, at: int, data: Seq<u8>) -> Seq<u8> {
    Seq::new(
        img.len(),
        |x: int|
            if at <= x < at + data.len() {
                data[x - at]
            } else {
                img[x]
            },
    )
}

/// `n` zero bytes.
pub open spec fn zeros(n: int) -> Seq<u8> {
    Seq::new(n as nat, |x: int| 0u8)
}

/// `img` grown with zero bytes to at least `len` bytes.
pub open spec fn grown(img: Seq<u8>, len: int) -> Seq<u8> {
    if len <= img.len() {
        img
    } else {
        img + zeros(len - img.len())
    }
}

/// Every byte of `s` is zero.
pub open spec fn all_zero(s: Seq<u8>) -> bool {
    forall|i: int| 0 <= i < s.len() ==> s[i] == 0
}

/// The unsigned 16-bit integer that two big-endian bytes hold.
pub open spec fn be_u16(b: Seq<u8>) -> int {
    b[0] * 256 + b[1]
}

/// The signed 32-bit integer that four big-endian bytes hold in two's
/// complement.
pub open spec fn be_i32(b: Seq<u8>) -> int {
    let u = b[0] * 16777216 + b[1] * 65536 + b[2] * 256 + b[3];
    if u >= 2147483648 {
        u - 4294967296
    } else {
        u
    }
}

/// The two big-endian bytes of an unsigned 16-bit integer.
pub open spec fn u16_bytes(v: int) -> Seq<u8> {
    seq![(v / 256) as u8, (v % 256) as u8]
}

/// The four big-endian bytes of a signed 32-bit integer in two's complement.
pub open spec fn i32_bytes(v: int) -> Seq<u8> {
    let u = if v < 0 {
        v + 4294967296
    } else {
        v
    };
    seq![
        (u / 16777216) as u8,
        ((u / 65536) % 256) as u8,
        ((u / 256) % 256) as u8,
        (u % 256) as u8,
    ]
}

/// Decoding undoes encoding, for both widths.
pub proof fn lemma_be_round_trip(v: int)
    ensures
        0 <= v < 65536 ==> be_u16(u16_bytes(v)) == v && u16_bytes(v).len() == 2,
        -2147483648 <= v < 2147483648 ==> be_i32(i32_bytes(v)) == v && i32_bytes(v).len() == 4,
{
}

/// Reads the big-endian `u16` at `at`.
pub fn read_u16(buf: &[u8], at: usize) -> (v: u16)
    requires
        at + 2 <= buf@.len(),
    ensures
        v == be_u16(buf@.subrange(at as int, at + 2)),
{
    let hi: u16 = buf[at] as u16;
    let lo: u16 = buf[at + 1] as u16;
    hi * 256 + lo
}

/// Reads the big-endian `i32` at `at`.
pub fn read_i32(buf: &[u8], at: usize) -> (v: i32)
    requires
        at + 4 <= buf@.len(),
    ensures
        v == be_i32(buf@.subrange(at as int, at + 4)),
{
    let b0: i64 = buf[at] as i64;
    let b1: i64 = buf[at + 1] as i64;
    let b2: i64 = buf[at + 2] as i64;
    let b3: i64 = buf[at + 3] as i64;
    let u: i64 = b0 * 16777216 + b1 * 65536 + b2 * 256 + b3;
    if u >= 2147483648 {
        (u - 4294967296) as i32
    } else {
        u as i32
    }
}

/// Appends the big-endian bytes of `v` to `out`.
pub fn push_u16(out: &mut Vec<u8>, v: u16)
    ensures
        final(out)@ == old(out)@ + u16_bytes(v as int),
{
    out.push((v / 256) as u8);
    out.push((v % 256) as u8);
    assert(out@ =~= old(out)@ + u16_bytes(v as int));
}

/// Appends the big-endian bytes of `v` to `out`.
pub fn push_i32(out: &mut Vec<u8>, v: i32)
    ensures
        final(out)@ == old(out)@ + i32_bytes(v as int),
{
    let u: i64 = if v < 0 {
        v as i64 + 4294967296
    } else {
        v as i64
    };
    out.push((u / 16777216) as u8);
    out.push(((u / 65536) % 256) as u8);
    out.push(((u / 256) % 256) as u8);
    out.push((u % 256) as u8);
    assert(out@ =~= old(out)@ + i32_bytes(v as int));
}

/// Writes `data` over the bytes of `buf` from `at` on.
pub fn write_into(buf: &mut Vec<u8>, at: usize, data: &[u8])
    requires
        at + data@.len() <= old(buf)@.len(),
    ensures
        final(buf)@ == splice(old(buf)@, at as int, data@),
{
    let len = data.len();
    let total = buf.len();
    let ghost base = buf@;
    let mut i: usize = 0;
    while i < len
        invariant
            i <= len,
            len == data@.len(),
            at + len <= total == base.len(),
            buf@.len() == base.len(),
            forall|x: int|
                0 <= x < base.len() ==> buf@[x] == if at <= x < at + i {
                    data@[x - at]
                } else {
                    base[x]
                },
        decreases len - i,
    {
        buf.set(at + i, data[i]);
        i += 1;
    }
    assert(buf@ =~= splice(base, at as int, data@));
}

/// A file that holds page `n` does not grow to hold it.
pub proof fn lemma_grown_same(img: Seq<u8>, n: int)
    requires
        has_page(img, n),
    ensures
        grown(img, (n + 1) * 4096) == img,
{
}

/// A write inside page `n` changes that page alone, by the same write at the
/// offset within the page.
pub proof fn lemma_splice_page(img: Seq<u8>, n: int, offset: int, data: Seq<u8>, m: int)
    requires
        has_page(img, n),
        has_page(img, m),
        0 <= offset,
        offset + data.len() <= 4096,
    ensures
        splice(img, n * 4096 + offset, data).len() == img.len(),
        m != n ==> page_of(splice(img, n * 4096 + offset, data), m) == page_of(img, m),
        page_of(splice(img, n * 4096 + offset, data), n) == splice(page_of(img, n), offset, data),
{
    let out = splice(img, n * 4096 + offset, data);
    if m != n {
        assert(page_of(out, m) =~= page_of(img, m));
    }
    assert(page_of(out, n) =~= splice(page_of(img, n), offset, data));
}

/// Growing a file keeps the pages it had.
pub proof fn lemma_grown_page(img: Seq<u8>, len: int, m: int)
    requires
        has_page(img, m),
    ensures
        has_page(grown(img, len), m),
        page_of(grown(img, len), m) == page_of(img, m),
        grown(img, len).len() == if len <= img.len() { img.len() as int } else { len },
{
    assert(page_of(grown(img, len), m) =~= page_of(img, m));
}

/// A write inside record `i` of a page changes that record alone.
pub proof fn lemma_splice_record(page: Seq<u8>, i: int, offset: int, data: Seq<u8>, j: int)
    requires
        page.len() == 4096,
        0 <= i < 128,
        0 <= j < 128,
        0 <= offset,
        offset + data.len() <= 32,
    ensures
        j != i ==> record_of(splice(page, i * 32 + offset, data), j) == record_of(page, j),
        record_of(splice(page, i * 32 + offset, data), i) == splice(record_of(page, i), offset, data),
{
    let out = splice(page, i * 32 + offset, data);
    if j != i {
        assert(record_of(out, j) =~= record_of(page, j));
    }
    assert(record_of(out, i) =~= splice(record_of(page, i), offset, data));
}

} // verus!
