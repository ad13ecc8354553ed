//! The page store: a file's bytes, addressed by page number and offset.

use crate::layout::{grown, has_page, page_of, splice, write_into, PAGE_SIZE};
use crate::table::CreateTableError;
use vstd::prelude::*;

verus! {

/// A file divided into 4096-byte pages, held in memory.
pub struct PageStore {
    bytes: Vec<u8>,
}

impl View for PageStore {
    type V = Seq<u8>;

    /// The file's bytes.
    closed spec fn view(&self) -> Seq<u8> {
        self.bytes@
    }
}

/// The result of a read of `len` bytes at `offset` of page `n`.
pub open spec fn read_result(img: Seq<u8>, n: int, offset: int, len: int) -> Result<
    Seq<u8>,
    CreateTableError,
> {
    if n < 0 || offset + len > 4096 {
        Err(CreateTableError::InvalidArgument)
    } else if n * 4096 + offset + len > img.len() {
        Err(CreateTableError::Io)
    } else {
        Ok(img.subrange(n * 4096 + offset, n * 4096 + offset + len))
    }
}

/// The file after a write of `data` at `offset` of page `n`: grown to the end
/// of that page if it was shorter, then overwritten.
pub open spec fn written(img: Seq<u8>, n: int, offset: int, data: Seq<u8>) -> Seq<u8> {
    splice(grown(img, (n + 1) * 4096), n * 4096 + offset, data)
}

/// The result of a write or an extension that reaches the end of page `n`,
/// where the write covers `end` bytes of the page.
pub open spec fn write_error(n: int, end: int) -> Option<CreateTableError> {
    if n < 0 || end > 4096 {
        Some(CreateTableError::InvalidArgument)
    } else if (n + 1) * 4096 > usize::MAX {
        Some(CreateTableError::Io)
    } else {
        None
    }
}

impl PageStore {
    /// A store over the bytes of a file.
    pub fn new(bytes: Vec<u8>) -> (store: PageStore)
        ensures
            store@ == bytes@,
    {
        PageStore { bytes }
    }

    /// Gives up the store for the bytes of the file.
    pub fn into_bytes(self) -> (bytes: Vec<u8>)
        ensures
            bytes@ == self@,
    {
        self.bytes
    }

    /// The file is no longer than the machine can address.
    pub proof fn lemma_len(&self)
        ensures
            self@.len() <= usize::MAX,
    {
        assert(self.bytes.len() <= usize::MAX);
    }

    /// The bytes of the file as it now stands.
    pub fn as_bytes(&self) -> (bytes: &Vec<u8>)
        ensures
            bytes@ == self@,
    {
        &self.bytes
    }

    /// The length of the file in bytes.
    pub fn len(&self) -> (n: usize)
        ensures
            n == self@.len(),
    {
        self.bytes.len()
    }

    /// Whether the file holds all of page `n`.
    pub fn holds_page(&self, n: i32) -> (b: bool)
        ensures
            b == has_page(self@, n as int),
    {
        n >= 0 && (n as u64 + 1) * 4096 <= self.bytes.len() as u64
    }

    /// Fills `buf` with the bytes at `offset` of page `n`. A negative page or
    /// a range that leaves the page is `InvalidArgument`; a range past the end
    /// of the file is `Io`. On an error `buf` is unchanged.
    pub fn read_at(&self, n: i32, offset: usize, buf: &mut Vec<u8>) -> (r: Result<
        (),
        CreateTableError,
    >)
        ensures
            match read_result(self@, n as int, offset as int, old(buf)@.len() as int) {
                Ok(bytes) => r == Ok::<(), CreateTableError>(()) && final(buf)@ == bytes,
                Err(e) => r == Err::<(), CreateTableError>(e) && final(buf)@ == old(buf)@,
            },
    {
        let len = buf.len();
        if n < 0 || offset > PAGE_SIZE || len > PAGE_SIZE - offset {
            return Err(CreateTableError::InvalidArgument);
        }
        let start: u64 = n as u64 * 4096 + offset as u64;
        if start + len as u64 > self.bytes.len() as u64 {
            return Err(CreateTableError::Io);
        }
        let start: usize = start as usize;
        let mut i: usize = 0;
        while i < len
            invariant
                i <= len,
                buf@.len() == len,
                start + len <= self.bytes.len(),
                forall|x: int| 0 <= x < i ==> buf@[x] == self.bytes@[start + x],
            decreases len - i,
        {
            buf.set(i, self.bytes[start + i]);
            i += 1;
        }
        assert(buf@ =~= self@.subrange(start as int, start + len));
        Ok(())
    }

    /// The bytes of page `n`.
    pub fn read_page(&self, n: i32) -> (r: Result<Vec<u8>, CreateTableError>)
        ensures
            match r {
                Ok(page) => has_page(self@, n as int) && page@ == page_of(self@, n as int),
                Err(e) => !has_page(self@, n as int) && e == if n < 0 {
                    CreateTableError::InvalidArgument
                } else {
                    CreateTableError::Io
                },
            },
    {
        let mut page: Vec<u8> = vec![0u8; PAGE_SIZE];
        match self.read_at(n, 0, &mut page) {
            Ok(()) => Ok(page),
            Err(e) => Err(e),
        }
    }

    /// Grows the file with zero bytes until it holds page `n`. A negative page
    /// is `InvalidArgument`; a file that the machine cannot address is `Io`.
    /// On an error the file is unchanged.
    pub fn extend_to(&mut self, n: i32) -> (r: Result<(), CreateTableError>)
        ensures
            match write_error(n as int, 0) {
                None => r == Ok::<(), CreateTableError>(()) && final(self)@ == grown(
                    old(self)@,
                    (n + 1) * 4096,
                ),
                Some(e) => r == Err::<(), CreateTableError>(e) && final(self)@ == old(self)@,
            },
    {
        if n < 0 {
            return Err(CreateTableError::InvalidArgument);
        }
        let end: u64 = (n as u64 + 1) * 4096;
        if end > usize::MAX as u64 {
            return Err(CreateTableError::Io);
        }
        let end: usize = end as usize;
        if self.bytes.len() < end {
            self.bytes.resize(end, 0u8);
            assert(self.bytes@ =~= grown(old(self)@, end as int));
        }
        Ok(())
    }

    /// Writes `data` at `offset` of page `n`, growing the file to the end of
    /// that page first if it was shorter. A negative page or a range that
    /// leaves the page is `InvalidArgument`; a file that the machine cannot
    /// address is `Io`. On an error the file is unchanged.
    pub fn write_at(&mut self, n: i32, offset: usize, data: &[u8]) -> (r: Result<
        (),
        CreateTableError,
    >)
        ensures
            match write_error(n as int, offset + data@.len()) {
                None => r == Ok::<(), CreateTableError>(()) && final(self)@ == written(
                    old(self)@,
                    n as int,
                    offset as int,
                    data@,
                ),
                Some(e) => r == Err::<(), CreateTableError>(e) && final(self)@ == old(self)@,
            },
    {
        let len = data.len();
        if n < 0 || offset > PAGE_SIZE || len > PAGE_SIZE - offset {
            return Err(CreateTableError::InvalidArgument);
        }
        match self.extend_to(n) {
            Ok(()) => {},
            Err(e) => {
                return Err(e);
            },
        }
        let start: usize = (n as u64 * 4096 + offset as u64) as usize;
        write_into(&mut self.bytes, start, data);
        Ok(())
    }
}

} // verus!
