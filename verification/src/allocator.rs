//! The page allocator: which pages are in use, and the smallest free one.

use crate::table::CreateTableError;
use std::collections::HashSet;
use vstd::prelude::*;

verus! {

broadcast use vstd::std_specs::hash::group_hash_axioms;

/// The page numbers that a set of `i32` holds, as integers.
pub open spec fn page_set(pages: Set<i32>) -> Set<int> {
    Set::new(|p: int| -2147483648 <= p <= 2147483647 && pages.contains(p as i32))
}

/// `p` is the smallest page number from `from` on that is not in `in_use`.
pub open spec fn first_free(in_use: Set<int>, from: int, p: int) -> bool {
    &&& from <= p <= i32::MAX
    &&& !in_use.contains(p)
    &&& forall|q: int| from <= q < p ==> in_use.contains(q)
}

/// The smallest page number from 1 on that is not in `in_use`.
pub open spec fn lowest_free(in_use: Set<int>) -> int {
    choose|p: int| first_free(in_use, 1, p)
}

/// The smallest page number from `from` on that is not in `in_use`.
pub open spec fn lowest_free_from(in_use: Set<int>, from: int) -> int {
    choose|p: int| first_free(in_use, from, p)
}

/// The smallest page number after `k` that is not in `in_use`.
pub open spec fn lowest_free_after(in_use: Set<int>, k: int) -> int {
    lowest_free_from(in_use, k + 1)
}

/// There is one smallest free page at most, and none where every page is in
/// use.
pub proof fn lemma_first_free(in_use: Set<int>, from: int, p: int)
    requires
        first_free(in_use, from, p),
    ensures
        !none_free(in_use, from),
        forall|q: int| first_free(in_use, from, q) ==> q == p,
        from == 1 ==> lowest_free(in_use) == p,
        lowest_free_after(in_use, from - 1) == p,
{
    assert forall|q: int| first_free(in_use, from, q) implies q == p by {
        if q < p {
            assert(in_use.contains(q));
        } else if p < q {
            assert(in_use.contains(p));
        }
    }
}

/// Where a page from `from` on is free, one of them is the smallest.
pub proof fn lemma_least_free(in_use: Set<int>, from: int, q: int)
    requires
        from <= q <= i32::MAX,
        !in_use.contains(q),
    ensures
        first_free(in_use, from, lowest_free_from(in_use, from)),
    decreases q - from,
{
    if forall|x: int| from <= x < q ==> in_use.contains(x) {
        assert(first_free(in_use, from, q));
    } else {
        let x = choose|x: int| from <= x < q && !in_use.contains(x);
        lemma_least_free(in_use, from, x);
    }
}

/// Every page number from `from` on is in `in_use`.
pub open spec fn none_free(in_use: Set<int>, from: int) -> bool {
    forall|q: int| from <= q <= i32::MAX ==> in_use.contains(q)
}

/// The smallest page number from `from` on that is not in `in_use`;
/// `StorageFull` when there is none up to 2^31 - 1.
pub fn find_free_from(in_use: &HashSet<i32>, from: i32) -> (r: Result<i32, CreateTableError>)
    ensures
        match r {
            Ok(p) => first_free(page_set(in_use@), from as int, p as int),
            Err(e) => e == CreateTableError::StorageFull && none_free(page_set(in_use@), from as int),
        },
{
    let mut p: i32 = from;
    while p < i32::MAX
        invariant
            from <= p <= i32::MAX,
            forall|q: int| from <= q < p ==> page_set(in_use@).contains(q),
        decreases i32::MAX - p,
    {
        if !in_use.contains(&p) {
            return Ok(p);
        }
        p = p + 1;
    }
    if !in_use.contains(&p) {
        Ok(p)
    } else {
        Err(CreateTableError::StorageFull)
    }
}

/// The smallest page number from 1 on that is not in `in_use_pages`;
/// `StorageFull` when there is none up to 2^31 - 1.
pub fn find_spare_page(in_use_pages: &HashSet<i32>) -> (r: Result<i32, CreateTableError>)
    ensures
        match r {
            Ok(p) => first_free(page_set(in_use_pages@), 1, p as int),
            Err(e) => e == CreateTableError::StorageFull && none_free(page_set(in_use_pages@), 1),
        },
{
    find_free_from(in_use_pages, 1)
}

/// The set of pages in use.
pub struct PageAllocator {
    in_use: HashSet<i32>,
}

impl View for PageAllocator {
    type V = Set<int>;

    /// The page numbers in use.
    closed spec fn view(&self) -> Set<int> {
        page_set(self.in_use@)
    }
}

impl PageAllocator {
    /// An allocator in which only page 0, the header page, is in use.
    pub fn new() -> (a: PageAllocator)
        ensures
            a@ == set![0int],
    {
        let mut in_use: HashSet<i32> = HashSet::new();
        in_use.insert(0);
        let a = PageAllocator { in_use };
        assert(a@ =~= set![0int]);
        a
    }

    /// Whether page `n` is in use.
    pub fn contains(&self, n: i32) -> (b: bool)
        ensures
            b == self@.contains(n as int),
    {
        self.in_use.contains(&n)
    }

    /// The smallest page from 1 on that is not in use. The page is not marked:
    /// the caller marks it before asking again.
    pub fn allocate(&self) -> (r: Result<i32, CreateTableError>)
        ensures
            match r {
                Ok(p) => first_free(self@, 1, p as int),
                Err(e) => e == CreateTableError::StorageFull && none_free(self@, 1),
            },
    {
        find_spare_page(&self.in_use)
    }

    /// The smallest page after `k` that is not in use. The page is not marked.
    pub fn allocate_after(&self, k: i32) -> (r: Result<i32, CreateTableError>)
        ensures
            match r {
                Ok(p) => first_free(self@, k + 1, p as int),
                Err(e) => e == CreateTableError::StorageFull && none_free(self@, k + 1),
            },
    {
        if k == i32::MAX {
            return Err(CreateTableError::StorageFull);
        }
        find_free_from(&self.in_use, k + 1)
    }

    /// Puts page `n` into the set.
    pub fn mark(&mut self, n: i32)
        ensures
            final(self)@ == old(self)@.insert(n as int),
    {
        self.in_use.insert(n);
        assert(self@ =~= old(self)@.insert(n as int));
    }

    /// Takes page `n` out of the set.
    pub fn release(&mut self, n: i32)
        ensures
            final(self)@ == old(self)@.remove(n as int),
    {
        self.in_use.remove(&n);
        assert(self@ =~= old(self)@.remove(n as int));
    }
}

} // verus!
