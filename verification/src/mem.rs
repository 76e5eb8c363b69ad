//! Model of one process's address space: the set of mapped pages with their
//! permission bits, and the heap break used by `sbrk`.
//!
//! A page table is out of scope; what the kernel's mapping syscalls decide is
//! which virtual page numbers are mapped and with which permissions, and that
//! is held here as plain data.
use vstd::prelude::*;

use crate::PAGE_SIZE;

verus! {

/// Highest user-space virtual address the heap may reach (exclusive).
pub const MAX_USER_VA: usize = 0x4000_0000;

/// One mapped page: its virtual page number and its permission bits
/// (read/write/execute in bits 1..=3, user-accessible in bit 4).
#[derive(Clone, Copy, PartialEq, Eq, Structural, Debug)]
pub struct PageMapping {
    /// Virtual page number.
    pub vpn: usize,
    /// Permission bits of the mapping.
    pub perm: u8,
}

/// A process's address space: the mapped pages and the heap segment.
pub struct AddrSpace {
    /// Every currently mapped page. Later entries shadow earlier ones with
    /// the same page number, though the mapping operations never create two.
    pub pages: Vec<PageMapping>,
    /// Lowest address of the heap segment.
    pub heap_bottom: usize,
    /// Current program break (one past the heap's last byte).
    pub brk: usize,
}

/// Permission of `vpn` in `pages`: `None` when the page is unmapped.
pub open spec fn page_perm(pages: Seq<PageMapping>, vpn: int) -> Option<u8>
    decreases pages.len(),
{
    if pages.len() == 0 {
        None
    } else if pages.last().vpn == vpn {
        Some(pages.last().perm)
    } else {
        page_perm(pages.drop_last(), vpn)
    }
}

/// `pages` with the `n` pages starting at page number `lo` all mapped with
/// permission `perm`.
pub open spec fn with_range_added(pages: Seq<PageMapping>, lo: int, n: nat, perm: u8) -> Seq<
    PageMapping,
>
    decreases n,
{
    if n == 0 {
        pages
    } else {
        with_range_added(pages, lo, (n - 1) as nat, perm).push(
            PageMapping { vpn: (lo + n - 1) as usize, perm },
        )
    }
}

/// `pages` with every page whose number lies in `[lo, hi)` removed.
pub open spec fn with_range_removed(pages: Seq<PageMapping>, lo: int, hi: int) -> Seq<PageMapping>
    decreases pages.len(),
{
    if pages.len() == 0 {
        pages
    } else {
        let rest = with_range_removed(pages.drop_last(), lo, hi);
        if lo <= pages.last().vpn < hi {
            rest
        } else {
            rest.push(pages.last())
        }
    }
}

/// Permission bits granted by `mmap`'s `port` argument: the low three bits
/// shifted into the read/write/execute positions, plus the user bit.
pub open spec fn spec_port_perm(port: usize) -> u8 {
    (port * 2 + 16) as u8
}

/// Page number of the first page of a byte range starting at `start`.
pub open spec fn first_vpn(start: int) -> int {
    start / (PAGE_SIZE as int)
}

/// Page number one past the last page of a byte range ending at `end`.
pub open spec fn end_vpn(end: int) -> int {
    end / (PAGE_SIZE as int) + if end % (PAGE_SIZE as int) == 0 {
        0int
    } else {
        1int
    }
}

/// When `mmap(start, len, port)` succeeds: `start` page-aligned, `port`
/// granting at least one and only the three permission bits, the byte range
/// representable, and every page of it unmapped.
pub open spec fn mmap_ok(pages: Seq<PageMapping>, start: int, len: int, port: int) -> bool {
    &&& start % (PAGE_SIZE as int) == 0
    &&& 1 <= port <= 7
    &&& start + len <= usize::MAX
    &&& forall|v: int|
        first_vpn(start) <= v < end_vpn(start + len) ==> page_perm(pages, v) is None
}

/// When `munmap(start, len)` succeeds: both arguments page-aligned, the byte
/// range representable, and every page of it mapped.
pub open spec fn munmap_ok(pages: Seq<PageMapping>, start: int, len: int) -> bool {
    &&& start % (PAGE_SIZE as int) == 0
    &&& len % (PAGE_SIZE as int) == 0
    &&& start + len <= usize::MAX
    &&& forall|v: int|
        first_vpn(start) <= v < first_vpn(start + len) ==> page_perm(pages, v) is Some
}

proof fn lemma_push_perm(pages: Seq<PageMapping>, mp: PageMapping, v: int)
    ensures
        page_perm(pages.push(mp), v) == if mp.vpn == v {
            Some(mp.perm)
        } else {
            page_perm(pages, v)
        },
{
    assert(pages.push(mp).drop_last() =~= pages);
}

/// Adding a range sets exactly the pages of that range to `perm` and touches
/// no other page.
pub proof fn lemma_with_range_added_perm(
    pages: Seq<PageMapping>,
    lo: int,
    n: nat,
    perm: u8,
    v: int,
)
    requires
        0 <= lo,
        lo + n <= usize::MAX,
    ensures
        page_perm(with_range_added(pages, lo, n, perm), v) == if lo <= v < lo + n {
            Some(perm)
        } else {
            page_perm(pages, v)
        },
    decreases n,
{
    if n > 0 {
        lemma_with_range_added_perm(pages, lo, (n - 1) as nat, perm, v);
        lemma_push_perm(
            with_range_added(pages, lo, (n - 1) as nat, perm),
            PageMapping { vpn: (lo + n - 1) as usize, perm },
            v,
        );
    }
}

/// Removing a range unmaps exactly the pages of that range and touches no
/// other page.
pub proof fn lemma_with_range_removed_perm(pages: Seq<PageMapping>, lo: int, hi: int, v: int)
    ensures
        page_perm(with_range_removed(pages, lo, hi), v) == if lo <= v < hi {
            None::<u8>
        } else {
            page_perm(pages, v)
        },
    decreases pages.len(),
{
    if pages.len() > 0 {
        lemma_with_range_removed_perm(pages.drop_last(), lo, hi, v);
        if !(lo <= pages.last().vpn < hi) {
            lemma_push_perm(with_range_removed(pages.drop_last(), lo, hi), pages.last(), v);
        }
    }
}

/// Removing a range that holds no mapped page changes nothing.
proof fn lemma_remove_noop(pages: Seq<PageMapping>, lo: int, hi: int)
    requires
        forall|v: int| lo <= v < hi ==> page_perm(pages, v) is None,
    ensures
        with_range_removed(pages, lo, hi) == pages,
    decreases pages.len(),
{
    if pages.len() > 0 {
        assert(page_perm(pages, pages.last().vpn as int) is Some);
        assert forall|v: int| lo <= v < hi implies page_perm(pages.drop_last(), v) is None by {
            assert(page_perm(pages, v) is None);
        }
        lemma_remove_noop(pages.drop_last(), lo, hi);
        assert(pages.drop_last().push(pages.last()) =~= pages);
    }
}

/// Removing `[lo, hi)` right after adding `[lo, lo + n)` inside it restores
/// the original pages, provided the whole of `[lo, hi)` was unmapped.
proof fn lemma_remove_added(pages: Seq<PageMapping>, lo: int, n: nat, perm: u8, hi: int)
    requires
        0 <= lo,
        lo + n <= hi,
        hi <= usize::MAX,
        forall|v: int| lo <= v < hi ==> page_perm(pages, v) is None,
    ensures
        with_range_removed(with_range_added(pages, lo, n, perm), lo, hi) == pages,
    decreases n,
{
    if n == 0 {
        lemma_remove_noop(pages, lo, hi);
    } else {
        let prev = with_range_added(pages, lo, (n - 1) as nat, perm);
        let added = with_range_added(pages, lo, n, perm);
        assert(added == prev.push(PageMapping { vpn: (lo + n - 1) as usize, perm }));
        assert(added.drop_last() =~= prev);
        lemma_remove_added(pages, lo, (n - 1) as nat, perm, hi);
    }
}

/// Law: for a page-aligned `start`, a page-multiple `len`, a `port` in
/// `1..=7` and a range whose pages are all unmapped, `mmap` succeeds, every
/// page of the range carries the requested permission afterwards, and a
/// `munmap` of exactly the same range succeeds and leaves the address space
/// as it was, the range unmapped again.
pub proof fn lemma_mmap_munmap_round_trip(pages: Seq<PageMapping>, start: int, len: int, port: int)
    requires
        0 <= start,
        0 <= len,
        start % (PAGE_SIZE as int) == 0,
        len % (PAGE_SIZE as int) == 0,
        start + len <= usize::MAX,
        1 <= port <= 7,
        forall|v: int|
            first_vpn(start) <= v < end_vpn(start + len) ==> page_perm(pages, v) is None,
    ensures
        mmap_ok(pages, start, len, port),
        ({
            let lo = first_vpn(start);
            let n = (end_vpn(start + len) - lo) as nat;
            let added = with_range_added(pages, lo, n, spec_port_perm(port as usize));
            &&& forall|v: int|
                lo <= v < lo + n ==> page_perm(added, v) == Some(spec_port_perm(port as usize))
            &&& munmap_ok(added, start, len)
            &&& with_range_removed(added, lo, first_vpn(start + len)) == pages
        }),
{
    let lo = first_vpn(start);
    assert((start + len) % (PAGE_SIZE as int) == 0) by {
        vstd::arithmetic::div_mod::lemma_add_mod_noop(start, len, PAGE_SIZE as int);
    }
    assert(end_vpn(start + len) == first_vpn(start + len));
    let n = (end_vpn(start + len) - lo) as nat;
    let added = with_range_added(pages, lo, n, spec_port_perm(port as usize));
    assert(lo + n <= usize::MAX) by {
        vstd::arithmetic::div_mod::lemma_div_is_ordered(start + len, usize::MAX as int, PAGE_SIZE as int);
        vstd::arithmetic::div_mod::lemma_div_is_ordered(0, start + len, PAGE_SIZE as int);
    }
    assert forall|v: int| lo <= v < lo + n implies page_perm(added, v) == Some(
        spec_port_perm(port as usize),
    ) by {
        lemma_with_range_added_perm(pages, lo, n, spec_port_perm(port as usize), v);
    }
    assert forall|v: int| first_vpn(start) <= v < first_vpn(start + len) implies page_perm(
        added,
        v,
    ) is Some by {
        lemma_with_range_added_perm(pages, lo, n, spec_port_perm(port as usize), v);
    }
    lemma_remove_added(pages, lo, n, spec_port_perm(port as usize), lo + n);
}

/// The heap segment is ordered and stays inside the user address range.
pub open spec fn brk_wf(m: AddrSpace) -> bool {
    m.heap_bottom <= m.brk <= MAX_USER_VA
}

impl AddrSpace {
    /// A fresh address space with no pages mapped and an empty heap starting
    /// at `heap_bottom`.
    pub fn new(heap_bottom: usize) -> (m: AddrSpace)
        requires
            heap_bottom <= MAX_USER_VA,
        ensures
            m.pages@ =~= Seq::<PageMapping>::empty(),
            m.heap_bottom == heap_bottom,
            m.brk == heap_bottom,
            brk_wf(m),
    {
        AddrSpace { pages: Vec::new(), heap_bottom, brk: heap_bottom }
    }

    /// An exact copy of this address space, as `fork` needs.
    pub fn duplicate(&self) -> (m: AddrSpace)
        ensures
            m.pages@ == self.pages@,
            m.heap_bottom == self.heap_bottom,
            m.brk == self.brk,
    {
        let pages = self.pages.clone();
        proof {
            assert(pages@ =~= self.pages@);
        }
        AddrSpace { pages, heap_bottom: self.heap_bottom, brk: self.brk }
    }

    /// Permission of `vpn`, or `None` when that page is unmapped.
    pub fn find_perm(&self, vpn: usize) -> (r: Option<u8>)
        ensures
            r == page_perm(self.pages@, vpn as int),
    {
        let mut i: usize = self.pages.len();
        proof {
            assert(self.pages@.take(self.pages@.len() as int) =~= self.pages@);
        }
        while i > 0
            invariant
                i <= self.pages@.len(),
                page_perm(self.pages@, vpn as int) == page_perm(
                    self.pages@.take(i as int),
                    vpn as int,
                ),
            decreases i,
        {
            i = i - 1;
            let mp = self.pages[i];
            proof {
                assert(self.pages@.take(i + 1).last() == self.pages@[i as int]);
                assert(self.pages@.take(i + 1).drop_last() =~= self.pages@.take(i as int));
            }
            if mp.vpn == vpn {
                return Some(mp.perm);
            }
        }
        None
    }

    /// Maps `[start, start + len)` with the permissions that `port` grants.
    /// Succeeds exactly when `start` is page-aligned, `port` lies in `1..=7`,
    /// the range is representable and no page of it is already mapped; on
    /// failure nothing changes.
    pub fn mmap(&mut self, start: usize, len: usize, port: usize) -> (r: isize)
        ensures
            r == 0 || r == -1,
            (r == 0) <==> mmap_ok(old(self).pages@, start as int, len as int, port as int),
            r == 0 ==> final(self).pages@ == with_range_added(
                old(self).pages@,
                first_vpn(start as int),
                (end_vpn(start as int + len) - first_vpn(start as int)) as nat,
                spec_port_perm(port as int as usize),
            ),
            r == -1 ==> final(self).pages@ == old(self).pages@,
            final(self).heap_bottom == old(self).heap_bottom,
            final(self).brk == old(self).brk,
    {
        if start % PAGE_SIZE != 0 {
            return -1;
        }
        if port == 0 || port > 7 {
            return -1;
        }
        let end = match start.checked_add(len) {
            Some(e) => e,
            None => {
                return -1;
            },
        };
        let s_vpn = start / PAGE_SIZE;
        let e_vpn = end / PAGE_SIZE + if end % PAGE_SIZE != 0 {
            1
        } else {
            0
        };
        let mut v = s_vpn;
        while v < e_vpn
            invariant
                s_vpn <= v <= e_vpn,
                s_vpn == first_vpn(start as int),
                e_vpn == end_vpn(start as int + len),
                forall|w: int| s_vpn <= w < v ==> page_perm(self.pages@, w) is None,
            decreases e_vpn - v,
        {
            if self.find_perm(v).is_some() {
                return -1;
            }
            v = v + 1;
        }
        let perm: u8 = (port * 2 + 16) as u8;
        let ghost pages0 = self.pages@;
        let mut v = s_vpn;
        while v < e_vpn
            invariant
                s_vpn <= v <= e_vpn,
                self.pages@ == with_range_added(pages0, s_vpn as int, (v - s_vpn) as nat, perm),
                self.heap_bottom == old(self).heap_bottom,
                self.brk == old(self).brk,
            decreases e_vpn - v,
        {
            self.pages.push(PageMapping { vpn: v, perm });
            v = v + 1;
        }
        0
    }

    /// Unmaps `[start, start + len)` exactly. Succeeds exactly when both
    /// arguments are page-aligned, the range is representable and every page
    /// of it is mapped; on failure nothing changes.
    pub fn munmap(&mut self, start: usize, len: usize) -> (r: isize)
        ensures
            r == 0 || r == -1,
            (r == 0) <==> munmap_ok(old(self).pages@, start as int, len as int),
            r == 0 ==> final(self).pages@ == with_range_removed(
                old(self).pages@,
                first_vpn(start as int),
                first_vpn(start as int + len),
            ),
            r == -1 ==> final(self).pages@ == old(self).pages@,
            final(self).heap_bottom == old(self).heap_bottom,
            final(self).brk == old(self).brk,
    {
        if start % PAGE_SIZE != 0 || len % PAGE_SIZE != 0 {
            return -1;
        }
        let end = match start.checked_add(len) {
            Some(e) => e,
            None => {
                return -1;
            },
        };
        let s_vpn = start / PAGE_SIZE;
        let e_vpn = end / PAGE_SIZE;
        proof {
            assert(e_vpn == first_vpn(start as int + len));
        }
        let mut v = s_vpn;
        while v < e_vpn
            invariant
                s_vpn <= v <= e_vpn,
                s_vpn == first_vpn(start as int),
                e_vpn == first_vpn(start as int + len),
                forall|w: int| s_vpn <= w < v ==> page_perm(self.pages@, w) is Some,
            decreases e_vpn - v,
        {
            if self.find_perm(v).is_none() {
                return -1;
            }
            v = v + 1;
        }
        let mut kept: Vec<PageMapping> = Vec::new();
        let mut i: usize = 0;
        while i < self.pages.len()
            invariant
                i <= self.pages@.len(),
                kept@ == with_range_removed(self.pages@.take(i as int), s_vpn as int, e_vpn as int),
            decreases self.pages@.len() - i,
        {
            let mp = self.pages[i];
            proof {
                assert(self.pages@.take(i + 1).last() == self.pages@[i as int]);
                assert(self.pages@.take(i + 1).drop_last() =~= self.pages@.take(i as int));
            }
            if !(s_vpn <= mp.vpn && mp.vpn < e_vpn) {
                kept.push(mp);
            }
            i = i + 1;
        }
        proof {
            assert(self.pages@.take(self.pages@.len() as int) =~= self.pages@);
        }
        self.pages = kept;
        0
    }

    /// Moves the program break by `delta` bytes and returns the old break,
    /// or `None` (leaving everything unchanged) when the move would leave
    /// `[heap_bottom, MAX_USER_VA]`.
    pub fn change_brk(&mut self, delta: i32) -> (r: Option<usize>)
        requires
            brk_wf(*old(self)),
        ensures
            brk_wf(*final(self)),
            (r is Some) <==> old(self).heap_bottom <= old(self).brk + delta <= MAX_USER_VA,
            r is Some ==> r == Some(old(self).brk) && final(self).brk == old(self).brk + delta,
            r is None ==> final(self).brk == old(self).brk,
            final(self).heap_bottom == old(self).heap_bottom,
            final(self).pages@ == old(self).pages@,
    {
        let new_brk: i64 = self.brk as i64 + delta as i64;
        if new_brk < self.heap_bottom as i64 || new_brk > MAX_USER_VA as i64 {
            None
        } else {
            let old_brk = self.brk;
            self.brk = new_brk as usize;
            Some(old_brk)
        }
    }
}

} // verus!
