use pagedb::allocator::find_free_from;
use pagedb::layout::{push_i32, push_u16, read_i32, read_u16, write_into};
use pagedb::{find_spare_page, CreateTableError, PageAllocator, PageStore};
use std::collections::HashSet;

#[test]
fn read_at_copies_the_range() {
    let mut bytes = vec![0u8; 8192];
    bytes[4096 + 10] = 7;
    bytes[4096 + 11] = 8;
    let store = PageStore::new(bytes);
    let mut buf = vec![0u8; 3];
    assert_eq!(store.read_at(1, 9, &mut buf), Ok(()));
    assert_eq!(buf, vec![0, 7, 8]);
    assert_eq!(store.len(), 8192);
    assert!(store.holds_page(1));
    assert!(!store.holds_page(2));
    assert!(!store.holds_page(-1));
}

#[test]
fn read_validates_page_and_range() {
    let store = PageStore::new(vec![1u8; 4096 + 100]);
    let mut buf = vec![9u8; 4];
    assert_eq!(store.read_at(-1, 0, &mut buf), Err(CreateTableError::InvalidArgument));
    assert_eq!(store.read_at(0, 4093, &mut buf), Err(CreateTableError::InvalidArgument));
    assert_eq!(store.read_at(0, 4092, &mut buf), Ok(()));
    assert_eq!(buf, vec![1u8; 4]);
    let mut buf = vec![9u8; 4];
    // page 1 is cut short after 100 bytes
    assert_eq!(store.read_at(1, 96, &mut buf), Ok(()));
    let mut buf = vec![9u8; 4];
    assert_eq!(store.read_at(1, 97, &mut buf), Err(CreateTableError::Io));
    assert_eq!(buf, vec![9u8; 4]);
    assert_eq!(store.read_at(2, 0, &mut buf), Err(CreateTableError::Io));
    assert_eq!(store.read_page(-3), Err(CreateTableError::InvalidArgument));
    assert_eq!(store.read_page(1), Err(CreateTableError::Io));
    assert_eq!(store.read_page(0), Ok(vec![1u8; 4096]));
}

#[test]
fn write_at_grows_the_file_to_the_page() {
    let mut store = PageStore::new(vec![5u8; 10]);
    assert_eq!(store.write_at(1, 4, &[1, 2, 3]), Ok(()));
    assert_eq!(store.len(), 8192);
    let bytes = store.as_bytes();
    assert_eq!(&bytes[..10], &[5u8; 10]);
    assert!(bytes[10..4100].iter().all(|b| *b == 0));
    assert_eq!(&bytes[4100..4103], &[1, 2, 3]);
    assert!(bytes[4103..].iter().all(|b| *b == 0));
}

#[test]
fn write_validates_page_and_range() {
    let mut store = PageStore::new(vec![0u8; 4096]);
    assert_eq!(store.write_at(-1, 0, &[1]), Err(CreateTableError::InvalidArgument));
    assert_eq!(store.write_at(0, 4096, &[1]), Err(CreateTableError::InvalidArgument));
    assert_eq!(store.write_at(0, 4000, &[1u8; 97]), Err(CreateTableError::InvalidArgument));
    assert_eq!(store.as_bytes(), &vec![0u8; 4096]);
    assert_eq!(store.write_at(0, 4000, &[1u8; 96]), Ok(()));
    assert_eq!(store.len(), 4096);
    assert_eq!(store.write_at(0, 4096, &[]), Ok(()));
}

#[test]
fn extend_to_pads_with_zeros() {
    let mut store = PageStore::new(vec![3u8; 5000]);
    assert_eq!(store.extend_to(0), Ok(()));
    assert_eq!(store.len(), 5000);
    assert_eq!(store.extend_to(2), Ok(()));
    assert_eq!(store.len(), 3 * 4096);
    assert_eq!(store.extend_to(-1), Err(CreateTableError::InvalidArgument));
    let bytes = store.into_bytes();
    assert!(bytes[..5000].iter().all(|b| *b == 3));
    assert!(bytes[5000..].iter().all(|b| *b == 0));
}

#[test]
fn write_into_overwrites_in_place() {
    let mut buf = vec![0u8, 1, 2, 3, 4, 5];
    write_into(&mut buf, 2, &[9, 8]);
    assert_eq!(buf, vec![0, 1, 9, 8, 4, 5]);
    write_into(&mut buf, 6, &[]);
    assert_eq!(buf, vec![0, 1, 9, 8, 4, 5]);
}

#[test]
fn integers_are_big_endian() {
    let mut out = Vec::new();
    push_u16(&mut out, 0x1234);
    push_i32(&mut out, 0x0102_0304);
    push_i32(&mut out, -3);
    push_i32(&mut out, i32::MIN);
    push_i32(&mut out, i32::MAX);
    push_u16(&mut out, 65535);
    assert_eq!(
        out,
        vec![
            0x12, 0x34, 1, 2, 3, 4, 0xff, 0xff, 0xff, 0xfd, 0x80, 0, 0, 0, 0x7f, 0xff, 0xff, 0xff,
            0xff, 0xff
        ]
    );
    assert_eq!(read_u16(&out, 0), 0x1234);
    assert_eq!(read_i32(&out, 2), 0x0102_0304);
    assert_eq!(read_i32(&out, 6), -3);
    assert_eq!(read_i32(&out, 10), i32::MIN);
    assert_eq!(read_i32(&out, 14), i32::MAX);
    assert_eq!(read_u16(&out, 18), 65535);
    for v in [0i32, 1, -1, 255, 256, -256, 65536, 4096, -2147483647] {
        assert_eq!(read_i32(&v.to_be_bytes(), 0), v);
        let mut b = Vec::new();
        push_i32(&mut b, v);
        assert_eq!(b, v.to_be_bytes().to_vec());
    }
}

#[test]
fn allocator_gives_the_smallest_free_page() {
    let mut a = PageAllocator::new();
    assert!(a.contains(0));
    assert!(!a.contains(1));
    assert_eq!(a.allocate(), Ok(1));
    // not marked yet: the same page again
    assert_eq!(a.allocate(), Ok(1));
    a.mark(1);
    assert_eq!(a.allocate(), Ok(2));
    assert_eq!(a.allocate_after(1), Ok(2));
    a.mark(2);
    a.mark(4);
    assert_eq!(a.allocate(), Ok(3));
    assert_eq!(a.allocate_after(3), Ok(5));
    assert_eq!(a.allocate_after(0), Ok(3));
    assert_eq!(a.allocate_after(100), Ok(101));
    a.release(1);
    assert!(!a.contains(1));
    assert_eq!(a.allocate(), Ok(1));
    assert_eq!(a.allocate_after(1), Ok(3));
    a.release(0);
    // page 0 is never handed out
    assert_eq!(a.allocate(), Ok(1));
}

#[test]
fn allocator_never_returns_a_page_in_use() {
    let mut a = PageAllocator::new();
    for _ in 0..300 {
        let p = a.allocate().unwrap();
        assert!(p >= 1);
        assert!(!a.contains(p));
        a.mark(p);
    }
    assert_eq!(a.allocate(), Ok(301));
}

#[test]
fn allocate_after_the_last_page_is_full() {
    let a = PageAllocator::new();
    assert_eq!(a.allocate_after(i32::MAX), Err(CreateTableError::StorageFull));
    assert_eq!(a.allocate_after(i32::MAX - 1), Ok(i32::MAX));
    let mut a = PageAllocator::new();
    a.mark(i32::MAX);
    assert_eq!(a.allocate_after(i32::MAX - 1), Err(CreateTableError::StorageFull));
}

#[test]
fn find_spare_page_skips_pages_in_use() {
    let set: HashSet<i32> = [0, 1, 2, 4].into_iter().collect();
    assert_eq!(find_spare_page(&set), Ok(3));
    assert_eq!(find_free_from(&set, 4), Ok(5));
    assert_eq!(find_free_from(&set, 0), Ok(3));
    let empty: HashSet<i32> = HashSet::new();
    assert_eq!(find_spare_page(&empty), Ok(1));
    assert_eq!(find_free_from(&empty, 0), Ok(0));
    let last: HashSet<i32> = [i32::MAX].into_iter().collect();
    assert_eq!(find_free_from(&last, i32::MAX), Err(CreateTableError::StorageFull));
}
