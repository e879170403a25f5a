use vstd::prelude::*;

use crate::memory_region::MemoryRegion;
use crate::pte::{
    lemma_pointer_bits, lemma_pointer_pte, lemma_va_index_bound, pte_is_pointer, pte_page,
    pte_valid, sv39_spec, va_index, DIRECT_MAP_OFFSET, HYPERVISOR_CODE_PTE, PAGE_SIZE, PTE_AD,
    PTE_RWXV, PTE_USER, PTE_VALID,
};

verus! {

/// One of the four address spaces that the shadow tables back.
#[derive(Copy, Clone, Debug, PartialEq, Eq, Structural)]
pub enum PageTableRoot {
    UVA,
    KVA,
    MVA,
    MPA,
}

/// Position of a root in the table of roots.
pub open spec fn root_index(root: PageTableRoot) -> int {
    match root {
        PageTableRoot::MPA => 0,
        PageTableRoot::UVA => 1,
        PageTableRoot::KVA => 2,
        PageTableRoot::MVA => 3,
    }
}

/// Marks the end of the free list; not page-aligned, so never a page.
pub const NULL_PAGE_PTR: u64 = 2;

/// The shadow page tables: a region of table pages, the four roots, and a
/// free list of pages threaded through the first word of each free page.
pub struct PageTables {
    region: MemoryRegion,
    root_page_tables: [u64; 4],
    free_list_head: u64,
    /// The free pages, head first.
    free: Ghost<Seq<u64>>,
    /// Every page in use as a table, with its level (0 for a root).
    level: Ghost<Map<u64, nat>>,
    /// For a table page, the address of the entry that was made to point to it.
    owner: Ghost<Map<u64, u64>>,
}

/// Address of the entry with index `i` in the table at `t`.
pub open spec fn slot_addr(t: u64, i: int) -> int {
    t + 8 * i
}

/// The pages among the first `n` pages from `start` that lie wholly outside
/// `[initrd_start, initrd_end)`, highest address first: the free list that
/// pushing them in address order leaves.
pub open spec fn kept_pages(start: int, n: nat, initrd_start: int, initrd_end: int) -> Seq<u64>
    decreases n,
{
    if n == 0 {
        Seq::empty()
    } else {
        let p = start + 4096 * (n - 1);
        let rest = kept_pages(start, (n - 1) as nat, initrd_start, initrd_end);
        if p + 4096 <= initrd_start || p >= initrd_end {
            seq![p as u64] + rest
        } else {
            rest
        }
    }
}

impl PageTables {
    /// The memory that holds the tables.
    pub closed spec fn region_spec(&self) -> MemoryRegion {
        self.region
    }

    /// The root table addresses, indexed by `root_index`.
    pub closed spec fn roots(&self) -> Seq<u64> {
        self.root_page_tables@
    }

    /// The first page of the free list, or `NULL_PAGE_PTR`.
    pub closed spec fn head(&self) -> u64 {
        self.free_list_head
    }

    /// The free pages, head first.
    pub closed spec fn free_pages(&self) -> Seq<u64> {
        self.free@
    }

    /// The pages in use as tables, each with its level (0 for a root).
    pub closed spec fn levels(&self) -> Map<u64, nat> {
        self.level@
    }

    /// For a table page, the address of the entry that was made to point to it.
    pub closed spec fn owners(&self) -> Map<u64, u64> {
        self.owner@
    }

    /// The root table of `root`.
    pub open spec fn root_spec(&self, root: PageTableRoot) -> u64 {
        self.roots()[root_index(root)]
    }

    /// Entry `i` of the table at `t`.
    pub open spec fn pte_at(&self, t: u64, i: int) -> u64 {
        self.region_spec().word(slot_addr(t, i))
    }

    /// `p` is the address of a whole page of the region.
    pub open spec fn is_page(&self, p: u64) -> bool {
        p % 4096 == 0 && self.region_spec().base_spec() <= p && p + 4096
            <= self.region_spec().end_spec()
    }

    /// The free list in memory matches `free_pages()`: distinct pages, each
    /// linking to the next, the last to the null marker.
    pub open spec fn free_list_ok(&self) -> bool {
        let f = self.free_pages();
        &&& self.region_spec().wf()
        &&& self.region_spec().base_spec() % 4096 == 0
        &&& f.no_duplicates()
        &&& forall|i: int| 0 <= i < f.len() ==> #[trigger] self.is_page(f[i])
        &&& forall|i: int| 0 <= i < f.len() - 1 ==> self.pte_at(#[trigger] f[i], 0) == f[i + 1]
        &&& f.len() > 0 ==> self.pte_at(f[f.len() - 1], 0) == NULL_PAGE_PTR && self.head() == f[0]
        &&& f.len() == 0 ==> self.head() == NULL_PAGE_PTR
    }

    /// Table pages are in use, not free; each pointer entry of a table of
    /// level 0 or 1 names a table one level down that it alone owns; the four
    /// roots are distinct tables of level 0.
    pub open spec fn tables_ok(&self) -> bool {
        let lv = self.levels();
        &&& forall|t: u64| #[trigger]
            lv.contains_key(t) ==> self.is_page(t) && !self.free_pages().contains(t) && lv[t] <= 2
        &&& forall|t: u64, i: int|
            lv.contains_key(t) && 0 <= i < 512 && pte_is_pointer(#[trigger] self.pte_at(t, i))
                ==> {
                let c = pte_page(self.pte_at(t, i));
                &&& lv[t] < 2
                &&& lv.contains_key(c)
                &&& lv[c] == lv[t] + 1
                &&& self.owners().contains_key(c)
                &&& self.owners()[c] == slot_addr(t, i)
            }
        &&& self.roots().len() == 4
        &&& forall|k: int|
            0 <= k < 4 ==> lv.contains_key(#[trigger] self.roots()[k]) && lv[self.roots()[k]] == 0
        &&& forall|j: int, k: int|
            0 <= j < 4 && 0 <= k < 4 && j != k ==> #[trigger] self.roots()[j]
                != #[trigger] self.roots()[k]
    }

    pub open spec fn wf(&self) -> bool {
        self.free_list_ok() && self.tables_ok()
    }

    /// `self` and `other` hold the same entries in every page but `p`.
    pub open spec fn same_pages_except(&self, other: &PageTables, p: u64) -> bool {
        &&& self.region_spec().base_spec() == other.region_spec().base_spec()
        &&& self.region_spec().words().len() == other.region_spec().words().len()
        &&& forall|t: u64, i: int|
            self.is_page(t) && t != p && 0 <= i < 512 ==> #[trigger] self.pte_at(t, i)
                == other.pte_at(t, i)
    }
}

impl PageTables {
    /// Table `q` hangs from entry `i` of the table at `pa`: that entry
    /// points to `q`, or to a table with an entry that points to `q`.
    pub open spec fn hangs_from(&self, pa: u64, i: int, q: u64) -> bool {
        let e = self.pte_at(pa, i);
        &&& pte_is_pointer(e)
        &&& (q == pte_page(e) || exists|k: int|
            0 <= k < 512 && pte_is_pointer(#[trigger] self.pte_at(pte_page(e), k)) && q == pte_page(
                self.pte_at(pte_page(e), k),
            ))
    }

    /// Table `q` hangs from one of the entries `start..end` of the table at `pa`.
    pub open spec fn reclaimed(&self, pa: u64, start: int, end: int, q: u64) -> bool {
        exists|i: int| start <= i < end && #[trigger] self.hangs_from(pa, i, q)
    }
}

impl PageTables {
    /// `alloc_page` took `r` from `pre`, giving `post`.
    pub open spec fn alloc_outcome(pre: PageTables, post: PageTables, r: u64) -> bool {
        &&& post.free_list_ok()
        &&& pre.tables_ok() ==> post.tables_ok()
        &&& r == pre.free_pages()[0]
        &&& post.free_pages() == pre.free_pages().skip(1)
        &&& post.levels() == pre.levels()
        &&& post.owners() == pre.owners()
        &&& post.roots() == pre.roots()
        &&& post.same_pages_except(&pre, r)
        &&& forall|i: int| 0 <= i < 512 ==> #[trigger] post.pte_at(r, i) == 0
    }

    /// `free_page(page)` on `pre` gave `post`.
    pub open spec fn free_outcome(pre: PageTables, post: PageTables, page: u64) -> bool {
        &&& post.free_list_ok()
        &&& pre.tables_ok() && !pre.levels().contains_key(page) ==> post.tables_ok()
        &&& post.free_pages() == seq![page] + pre.free_pages()
        &&& post.levels() == pre.levels()
        &&& post.owners() == pre.owners()
        &&& post.roots() == pre.roots()
        &&& post.same_pages_except(&pre, page)
        &&& post.pte_at(page, 0) == pre.head()
        &&& forall|i: int| 1 <= i < 512 ==> #[trigger] post.pte_at(page, i) == pre.pte_at(page, i)
    }

    /// `pte_for_addr(root, va)` on `pre` returned `r`, giving `post`.
    pub open spec fn walk_outcome(pre: PageTables, post: PageTables, root: PageTableRoot, va: u64, r: u64) -> bool {
        &&& post.wf()
        &&& post.roots() == pre.roots()
        &&& post.missing_tables(root, va) == 0
        &&& post.path_ok(root, va)
        &&& r == post.leaf_slot(root, va)
        &&& post.levels().contains_key(post.leaf_table(root, va))
        &&& post.levels()[post.leaf_table(root, va)] == 2
        &&& post.free_pages() == pre.free_pages().skip(pre.missing_tables(root, va) as int)
        &&& pre.missing_tables(root, va) == 0 ==> post == pre
        &&& post.region_spec().base_spec() == pre.region_spec().base_spec()
        &&& post.region_spec().words().len() == pre.region_spec().words().len()
        &&& pre.missing_tables(root, va) <= 1 ==> post.entry0(root, va) == pre.entry0(root, va)
        &&& pre.missing_tables(root, va) == 2 ==> pte_page(post.entry0(root, va)) == pre.free_pages()[0]
        &&& pre.missing_tables(root, va) >= 1 ==> post.leaf_table(root, va) == pre.free_pages()[pre.missing_tables(root, va) - 1]
        &&& pre.missing_tables(root, va) >= 1 ==> forall|j: int|
            0 <= j < 512 ==> #[trigger] post.pte_at(post.leaf_table(root, va), j) == 0
        &&& pre.missing_tables(root, va) == 2 ==> forall|j: int|
            0 <= j < 512 && j != va_index(va, 1) ==> #[trigger] post.pte_at(pte_page(post.entry0(root, va)), j) == 0
        &&& forall|q: u64, j: int|
            (pre.is_page(q) && 0 <= j < 512 && !pre.free_pages().take(pre.missing_tables(root, va) as int).contains(q)
                && (q != pre.root_spec(root) || j != va_index(va, 0)) && (q != pte_page(post.entry0(root, va)) || j
                != va_index(va, 1))) ==> #[trigger] post.pte_at(q, j) == pre.pte_at(q, j)
    }

    /// `clear_page_table_range(pa, start_index, end_index)` on `pre` gave `post`.
    pub open spec fn clear_outcome(pre: PageTables, post: PageTables, pa: u64, start_index: u64, end_index: u64) -> bool {
        &&& post.wf()
        &&& post.roots() == pre.roots()
        &&& post.owners() == pre.owners()
        &&& post.region_spec().base_spec() == pre.region_spec().base_spec()
        &&& post.region_spec().words().len() == pre.region_spec().words().len()
        &&& post.levels().contains_key(pa)
        &&& post.levels()[pa] == pre.levels()[pa]
        &&& forall|i: int| start_index <= i < end_index ==> #[trigger] post.pte_at(pa, i) == 0
        &&& forall|i: int|
                0 <= i < 512 && !(start_index <= i < end_index) ==> #[trigger] post.pte_at(pa, i)
                    == pre.pte_at(pa, i)
        &&& forall|t: u64| #[trigger]
                pre.levels().contains_key(t) && t != pa && pre.levels()[t] <= pre.levels()[pa]
                    ==> post.levels().contains_key(t) && post.levels()[t] == pre.levels()[t]
        &&& forall|t: u64, i: int|
                (pre.levels().contains_key(t) && t != pa && pre.levels()[t] <= pre.levels()[pa]
                    && 0 <= i < 512) ==> #[trigger] post.pte_at(t, i) == pre.pte_at(t, i)
        &&& forall|t: u64| #[trigger]
                post.levels().contains_key(t) ==> pre.levels().contains_key(t)
                    && post.levels()[t] == pre.levels()[t]
        &&& has_suffix(post.free_pages(), pre.free_pages())
        &&& forall|q: u64| #[trigger]
            pre.reclaimed(pa, start_index as int, end_index as int, q) ==> !post.levels().contains_key(q)
                && post.free_pages().contains(q)
        &&& forall|k: int|
            0 <= k < post.free_pages().len() - pre.free_pages().len() ==> pre.reclaimed(
                pa,
                start_index as int,
                end_index as int,
                #[trigger] post.free_pages()[k],
            )
        &&& forall|t: u64|
            pre.levels().contains_key(t) && t != pa && !pre.reclaimed(pa, start_index as int, end_index as int, t)
                ==> #[trigger] post.levels().contains_key(t) && post.levels()[t] == pre.levels()[t]
        &&& forall|t: u64, k: int|
            (pre.is_page(t) && t != pa && !pre.reclaimed(pa, start_index as int, end_index as int, t) && 0 <= k < 512)
                ==> #[trigger] post.pte_at(t, k) == pre.pte_at(t, k)
    }

}

impl PageTables {
    /// Takes the page at the head of the free list and resets its 512
    /// entries to invalid.
    pub fn alloc_page(&mut self) -> (r: u64)
        requires
            old(self).free_list_ok(),
            old(self).free_pages().len() > 0,
        ensures
            Self::alloc_outcome(*old(self), *final(self), r),
    {
        let free = self.free_list_head;
        proof {
            assert(self.is_page(self.free@[0]));
            lemma_slot(self.region, free, 0);
        }
        self.free_list_head = self.region.read(free);
        self.free = Ghost(self.free@.skip(1));
        let mut i: u64 = 0;
        while i < 512
            invariant
                0 <= i <= 512,
                self.region.wf(),
                old(self).free_list_ok(),
                old(self).free@.len() > 0,
                free == old(self).free@[0],
                old(self).is_page(free),
                self.free_list_head == old(self).region.word(free as int),
                self.free@ == old(self).free@.skip(1),
                self.level == old(self).level,
                self.owner == old(self).owner,
                self.root_page_tables == old(self).root_page_tables,
                self.same_pages_except(old(self), free),
                forall|j: int| 0 <= j < i ==> #[trigger] self.pte_at(free, j) == 0,
                self.pte_at(free, 0) == old(self).pte_at(free, 0) || i > 0,
            decreases 512 - i,
        {
            let ghost prev = *self;
            proof {
                lemma_slot(self.region, free, i as int);
            }
            self.region.write(free + i * 8, 0);
            proof {
                assert forall|t: u64, j: int|
                    self.is_page(t) && t != free && 0 <= j < 512 implies #[trigger] self.pte_at(t, j)
                    == old(self).pte_at(t, j) by {
                    lemma_slots_distinct(self.region, t, j, free, i as int);
                    assert(prev.pte_at(t, j) == old(self).pte_at(t, j));
                }
                assert forall|j: int| 0 <= j <= i implies #[trigger] self.pte_at(free, j) == 0 by {
                    if j != i {
                        lemma_slots_distinct(self.region, free, j, free, i as int);
                        assert(prev.pte_at(free, j) == 0);
                    }
                }
            }
            i += 1;
        }
        proof {
            let f = old(self).free@;
            assert forall|k: int| 0 <= k < self.free@.len() - 1 implies self.pte_at(
                #[trigger] self.free@[k],
                0,
            ) == self.free@[k + 1] by {
                assert(f[k + 1] != f[0]);
                assert(old(self).is_page(f[k + 1]));
            }
            if self.free@.len() > 0 {
                assert(f[f.len() - 1] != f[0]);
            }
            assert forall|k: int| 0 <= k < self.free@.len() implies #[trigger] self.is_page(
                self.free@[k],
            ) by {
                assert(old(self).is_page(f[k + 1]));
            }
            if old(self).tables_ok() {
                assert forall|t: u64| #[trigger]
                    self.level@.contains_key(t) implies !self.free@.contains(t) by {
                    if self.free@.contains(t) {
                        let k = choose|k: int| 0 <= k < self.free@.len() && self.free@[k] == t;
                        assert(f[k + 1] == t);
                    }
                }
                assert forall|t: u64, j: int|
                    self.level@.contains_key(t) && 0 <= j < 512 implies #[trigger] self.pte_at(t, j)
                    == old(self).pte_at(t, j) by {
                    assert(f[0] == free);
                    assert(old(self).is_page(t));
                }
            }
        }
        free
    }

    /// Pushes `page` onto the free list, writing the previous head into its
    /// first entry.
    pub fn free_page(&mut self, page: u64)
        requires
            old(self).free_list_ok(),
            old(self).is_page(page),
            !old(self).free_pages().contains(page),
        ensures
            Self::free_outcome(*old(self), *final(self), page),
    {
        proof {
            lemma_slot(self.region, page, 0);
        }
        self.region.write(page, self.free_list_head);
        self.free_list_head = page;
        self.free = Ghost(seq![page] + self.free@);
        proof {
            assert forall|t: u64, j: int|
                self.is_page(t) && 0 <= j < 512 && (t != page || j != 0) implies #[trigger] self.pte_at(t, j)
                == old(self).pte_at(t, j) by {
                lemma_slots_distinct(self.region, t, j, page, 0);
            }
            let f = self.free@;
            let g = old(self).free@;
            assert forall|k: int| 0 <= k < f.len() implies #[trigger] self.is_page(f[k]) by {
                if k > 0 {
                    assert(f[k] == g[k - 1]);
                    assert(old(self).is_page(g[k - 1]));
                }
            }
            assert forall|k: int| 0 <= k < f.len() - 1 implies self.pte_at(#[trigger] f[k], 0)
                == f[k + 1] by {
                if k > 0 {
                    assert(f[k] == g[k - 1]);
                    assert(old(self).is_page(g[k - 1]));
                }
            }
            if g.len() > 0 {
                assert(old(self).is_page(g[g.len() - 1]));
                assert(f[f.len() - 1] == g[g.len() - 1]);
            }
            assert forall|a: int, b: int| 0 <= a < f.len() && 0 <= b < f.len() && a != b implies f[a]
                != f[b] by {
                if a > 0 && b > 0 {
                    assert(f[a] == g[a - 1] && f[b] == g[b - 1]);
                } else if a == 0 {
                    assert(f[b] == g[b - 1]);
                } else {
                    assert(f[a] == g[a - 1]);
                }
            }
            if old(self).tables_ok() && !old(self).levels().contains_key(page) {
                assert forall|t: u64| #[trigger]
                    self.level@.contains_key(t) implies !self.free@.contains(t) by {
                    if self.free@.contains(t) {
                        let k = choose|k: int| 0 <= k < f.len() && f[k] == t;
                        if k > 0 {
                            assert(g[k - 1] == t);
                        }
                    }
                }
                assert forall|t: u64, j: int|
                    self.level@.contains_key(t) && 0 <= j < 512 implies #[trigger] self.pte_at(t, j)
                    == old(self).pte_at(t, j) by {
                    assert(old(self).is_page(t));
                }
            }
        }
    }
}

/// The page at `p` lies wholly outside `[initrd_start, initrd_end)`.
pub open spec fn outside_initrd(p: int, initrd_start: int, initrd_end: int) -> bool {
    p + 4096 <= initrd_start || p >= initrd_end
}

/// Counts the pages of `region` that lie wholly outside
/// `[initrd_start, initrd_end)`: the pages that `PageTables::new` puts on the
/// free list.
pub fn count_kept_pages(region: &MemoryRegion, initrd_start: u64, initrd_end: u64) -> (r: u64)
    requires
        region.wf(),
        region.words().len() % 512 == 0,
    ensures
        r == kept_pages(
            region.base_spec(),
            (region.words().len() / 512) as nat,
            initrd_start as int,
            initrd_end as int,
        ).len(),
{
    let start = region.base();
    let npages = region.len() / PAGE_SIZE;
    let mut n: u64 = 0;
    let mut count: u64 = 0;
    while n < npages
        invariant
            n <= npages,
            npages == region.words().len() / 512,
            start == region.base_spec(),
            start + 4096 * npages <= u64::MAX,
            count <= n,
            count == kept_pages(start as int, n as nat, initrd_start as int, initrd_end as int).len(),
        decreases npages - n,
    {
        let addr = start + n * PAGE_SIZE;
        if addr + PAGE_SIZE <= initrd_start || addr >= initrd_end {
            count += 1;
        }
        n += 1;
    }
    count
}

impl PageTables {
    /// Builds the tables over `region`: every page outside the init RAM disk
    /// goes onto the free list, then the four roots are taken from it.
    pub fn new(region: MemoryRegion, initrd_start: u64, initrd_end: u64) -> (r: PageTables)
        requires
            region.wf(),
            region.base_spec() % 4096 == 0,
            region.words().len() % 512 == 0,
            kept_pages(
                region.base_spec(),
                (region.words().len() / 512) as nat,
                initrd_start as int,
                initrd_end as int,
            ).len() >= 4,
        ensures
            r.wf(),
            r.region_spec().base_spec() == region.base_spec(),
            r.region_spec().words().len() == region.words().len(),
            r.free_pages() == kept_pages(
                region.base_spec(),
                (region.words().len() / 512) as nat,
                initrd_start as int,
                initrd_end as int,
            ).skip(4),
            forall|k: int|
                0 <= k < 4 ==> #[trigger] r.roots()[k] == kept_pages(
                    region.base_spec(),
                    (region.words().len() / 512) as nat,
                    initrd_start as int,
                    initrd_end as int,
                )[k],
            forall|k: int|
                0 <= k < r.free_pages().len() ==> outside_initrd(
                    #[trigger] r.free_pages()[k] as int,
                    initrd_start as int,
                    initrd_end as int,
                ),
            forall|k: int|
                0 <= k < 4 ==> outside_initrd(
                    #[trigger] r.roots()[k] as int,
                    initrd_start as int,
                    initrd_end as int,
                ),
            forall|k: int, i: int|
                0 <= k < 4 && 0 <= i < 512 ==> #[trigger] r.pte_at(r.roots()[k], i) == 0,
    {
        let start = region.base();
        let end = start + region.len();
        let ghost len = region.words().len();
        let mut ret = PageTables {
            region,
            root_page_tables: [0, 0, 0, 0],
            free_list_head: NULL_PAGE_PTR,
            free: Ghost(Seq::empty()),
            level: Ghost(Map::empty()),
            owner: Ghost(Map::empty()),
        };
        let mut addr = start;
        let ghost mut n: nat = 0;
        assert(len % 512 == 0);
        while addr < end
            invariant
                ret.region.wf(),
                start == ret.region.base_spec(),
                start % 4096 == 0,
                ret.region.words().len() == len,
                len % 512 == 0,
                end == start + 8 * len,
                addr == start + 4096 * n,
                addr <= end,
                ret.free_list_ok(),
                ret.free@ == kept_pages(start as int, n, initrd_start as int, initrd_end as int),
                forall|k: int|
                    0 <= k < ret.free@.len() ==> start <= #[trigger] ret.free@[k] < addr
                        && outside_initrd(ret.free@[k] as int, initrd_start as int, initrd_end as int),
            decreases end - addr,
        {
            proof {
                assert(addr + 4096 <= end && addr % 4096 == 0) by (nonlinear_arith)
                    requires
                        addr == start + 4096 * n,
                        start % 4096 == 0,
                        len % 512 == 0,
                        end == start + 8 * len,
                        addr < end,
                ;
            }
            let ghost prev = ret.free@;
            if addr + PAGE_SIZE <= initrd_start || addr >= initrd_end {
                ret.free_page(addr);
                proof {
                    assert forall|k: int| 0 <= k < ret.free@.len() implies start <= #[trigger] ret.free@[k]
                        < addr + 4096 && outside_initrd(
                        ret.free@[k] as int,
                        initrd_start as int,
                        initrd_end as int,
                    ) by {
                        if k > 0 {
                            assert(ret.free@[k] == prev[k - 1]);
                        }
                    }
                }
            }
            addr += PAGE_SIZE;
            proof {
                n = n + 1;
            }
        }
        proof {
            assert(n == len / 512) by (nonlinear_arith)
                requires
                    start + 4096 * n == start + 8 * len,
                    len % 512 == 0,
            ;
        }
        let ghost f = ret.free@;
        let ghost s0 = ret;
        let r0 = ret.alloc_page();
        let ghost s1 = ret;
        let r1 = ret.alloc_page();
        let ghost s2 = ret;
        let r2 = ret.alloc_page();
        let ghost s3 = ret;
        let r3 = ret.alloc_page();
        let ghost s4 = ret;
        proof {
            assert(s0.is_page(f[0]) && s0.is_page(f[1]) && s0.is_page(f[2]) && s0.is_page(f[3]));
            assert(f[0] != f[1] && f[0] != f[2] && f[0] != f[3] && f[1] != f[2] && f[1] != f[3] && f[2] != f[3]);
            assert(f.skip(1).skip(1).skip(1).skip(1) =~= f.skip(4));
            assert(r1 == f[1] && r2 == f[2] && r3 == f[3]);
        }
        ret.root_page_tables = [r0, r1, r2, r3];
        ret.level = Ghost(Map::empty().insert(r0, 0nat).insert(r1, 0nat).insert(r2, 0nat).insert(r3, 0nat));
        proof {
            let rs = ret.root_page_tables@;
            assert(rs[0] == r0 && rs[1] == r1 && rs[2] == r2 && rs[3] == r3);
            assert forall|k: int, i: int| 0 <= k < 4 && 0 <= i < 512 implies #[trigger] ret.pte_at(
                rs[k],
                i,
            ) == 0 by {
                assert(s0.is_page(f[k]));
                if k == 0 {
                    assert(s1.pte_at(r0, i) == 0);
                    assert(s2.pte_at(r0, i) == 0);
                    assert(s3.pte_at(r0, i) == 0);
                } else if k == 1 {
                    assert(s2.pte_at(r1, i) == 0);
                    assert(s3.pte_at(r1, i) == 0);
                } else if k == 2 {
                    assert(s3.pte_at(r2, i) == 0);
                }
                assert(s4.pte_at(rs[k], i) == 0);
                assert(ret.region == s4.region);
            }
            assert forall|k: int| 0 <= k < ret.free@.len() implies outside_initrd(
                #[trigger] ret.free@[k] as int,
                initrd_start as int,
                initrd_end as int,
            ) by {
                assert(ret.free@[k] == f[k + 4]);
            }
            assert forall|t: u64| #[trigger]
                ret.level@.contains_key(t) implies ret.is_page(t) && !ret.free@.contains(t) by {
                if ret.free@.contains(t) {
                    let k = choose|k: int| 0 <= k < ret.free@.len() && ret.free@[k] == t;
                    assert(f[k + 4] == t);
                }
            }
            assert forall|k: int| 0 <= k < 4 implies outside_initrd(
                #[trigger] rs[k] as int,
                initrd_start as int,
                initrd_end as int,
            ) by {
                assert(rs[k] == f[k]);
            }
            assert(!pte_is_pointer(0)) by (bit_vector);
            assert forall|t: u64, i: int|
                ret.level@.contains_key(t) && 0 <= i < 512 implies !pte_is_pointer(
                #[trigger] ret.pte_at(t, i),
            ) by {
                if t == r0 {
                    assert(ret.pte_at(rs[0], i) == 0);
                } else if t == r1 {
                    assert(ret.pte_at(rs[1], i) == 0);
                } else if t == r2 {
                    assert(ret.pte_at(rs[2], i) == 0);
                } else {
                    assert(ret.pte_at(rs[3], i) == 0);
                }
            }
            assert(s4.free_list_ok());
            assert(ret.region == s4.region && ret.free == s4.free && ret.free_list_head
                == s4.free_list_head);
            assert forall|k: int| 0 <= k < ret.free@.len() - 1 implies ret.pte_at(
                #[trigger] ret.free@[k],
                0,
            ) == ret.free@[k + 1] by {
                assert(s4.pte_at(s4.free@[k], 0) == s4.free@[k + 1]);
            }
            assert forall|k: int| 0 <= k < ret.free@.len() implies #[trigger] ret.is_page(
                ret.free@[k],
            ) by {
                assert(s4.is_page(s4.free@[k]));
            }
            assert(ret.free_list_ok());
            assert(ret.tables_ok());
        }
        ret
    }

    /// The memory that holds the tables.
    pub fn region(&self) -> (r: &MemoryRegion)
        ensures
            *r == self.region_spec(),
    {
        &self.region
    }

    /// Physical address of the root table of `root`.
    pub fn root_pa(&self, root: PageTableRoot) -> (r: u64)
        ensures
            r == self.root_spec(root),
    {
        let i: usize = match root {
            PageTableRoot::MPA => 0,
            PageTableRoot::UVA => 1,
            PageTableRoot::KVA => 2,
            PageTableRoot::MVA => 3,
        };
        self.root_page_tables[i]
    }
}

impl PageTables {
    /// Entry for `va` in the root table of `root`.
    pub open spec fn entry0(&self, root: PageTableRoot, va: u64) -> u64 {
        self.pte_at(self.root_spec(root), va_index(va, 0) as int)
    }

    /// Entry for `va` in the level-1 table that `entry0` names.
    pub open spec fn entry1(&self, root: PageTableRoot, va: u64) -> u64 {
        self.pte_at(pte_page(self.entry0(root, va)), va_index(va, 1) as int)
    }

    /// How many tables a walk to `va` under `root` must still allocate.
    pub open spec fn missing_tables(&self, root: PageTableRoot, va: u64) -> nat {
        if !pte_valid(self.entry0(root, va)) {
            2
        } else if !pte_valid(self.entry1(root, va)) {
            1
        } else {
            0
        }
    }

    /// No valid entry on the walk to `va` above the last level is a leaf.
    pub open spec fn path_ok(&self, root: PageTableRoot, va: u64) -> bool {
        &&& pte_valid(self.entry0(root, va)) ==> pte_is_pointer(self.entry0(root, va))
        &&& pte_valid(self.entry0(root, va)) && pte_valid(self.entry1(root, va)) ==> pte_is_pointer(
            self.entry1(root, va),
        )
    }

    /// The last-level table on the walk to `va`.
    pub open spec fn leaf_table(&self, root: PageTableRoot, va: u64) -> u64 {
        pte_page(self.entry1(root, va))
    }

    /// Address of the last-level entry for `va`.
    pub open spec fn leaf_slot(&self, root: PageTableRoot, va: u64) -> int {
        slot_addr(self.leaf_table(root, va), va_index(va, 2) as int)
    }

    /// Writes `v` to entry `i` of the page at `t`.
    fn write_entry(&mut self, t: u64, i: u64, v: u64)
        requires
            old(self).free_list_ok(),
            old(self).is_page(t),
            !old(self).free_pages().contains(t),
            i < 512,
        ensures
            final(self).free_list_ok(),
            final(self).free_pages() == old(self).free_pages(),
            final(self).head() == old(self).head(),
            final(self).levels() == old(self).levels(),
            final(self).owners() == old(self).owners(),
            final(self).roots() == old(self).roots(),
            final(self).region_spec().base_spec() == old(self).region_spec().base_spec(),
            final(self).region_spec().words().len() == old(self).region_spec().words().len(),
            final(self).pte_at(t, i as int) == v,
            old(self).tables_ok() && !pte_is_pointer(v) ==> final(self).tables_ok(),
            forall|q: u64, j: int|
                old(self).is_page(q) && 0 <= j < 512 && (q != t || j != i) ==> #[trigger] final(self).pte_at(q, j) == old(self).pte_at(q, j),
    {
        proof {
            lemma_slot(self.region, t, i as int);
        }
        self.region.write(t + i * 8, v);
        proof {
            assert forall|q: u64, j: int|
                old(self).is_page(q) && 0 <= j < 512 && (q != t || j != i) implies #[trigger] self.pte_at(
                q,
                j,
            ) == old(self).pte_at(q, j) by {
                lemma_slots_distinct(self.region, q, j, t, i as int);
            }
            let f = self.free@;
            assert forall|k: int| 0 <= k < f.len() - 1 implies self.pte_at(#[trigger] f[k], 0)
                == f[k + 1] by {
                assert(old(self).is_page(f[k]));
                assert(old(self).pte_at(f[k], 0) == f[k + 1]);
            }
            if f.len() > 0 {
                assert(old(self).is_page(f[f.len() - 1]));
            }
            if old(self).tables_ok() && !pte_is_pointer(v) {
                assert forall|q: u64, j: int|
                    self.level@.contains_key(q) && 0 <= j < 512 && pte_is_pointer(
                        #[trigger] self.pte_at(q, j),
                    ) implies ({
                    let c = pte_page(self.pte_at(q, j));
                    &&& self.level@[q] < 2
                    &&& self.level@.contains_key(c)
                    &&& self.level@[c] == self.level@[q] + 1
                    &&& self.owner@.contains_key(c)
                    &&& self.owner@[c] == slot_addr(q, j)
                }) by {
                    assert(old(self).is_page(q));
                    if q != t || j != i {
                        assert(self.pte_at(q, j) == old(self).pte_at(q, j));
                    }
                }
            }
            assert forall|k: int| 0 <= k < f.len() implies #[trigger] self.is_page(f[k]) by {
                assert(old(self).is_page(f[k]));
            }
        }
    }

    /// Follows entry `i` of table `t` to the table it points to, first
    /// allocating that table and installing a pointer to it if the entry is
    /// invalid.
    fn next_table(&mut self, t: u64, i: u64) -> (r: u64)
        requires
            old(self).wf(),
            old(self).levels().contains_key(t),
            old(self).levels()[t] < 2,
            i < 512,
            pte_valid(old(self).pte_at(t, i as int)) ==> pte_is_pointer(old(self).pte_at(t, i as int)),
            !pte_valid(old(self).pte_at(t, i as int)) ==> old(self).free_pages().len() > 0,
        ensures
            final(self).wf(),
            final(self).roots() == old(self).roots(),
            final(self).region_spec().base_spec() == old(self).region_spec().base_spec(),
            final(self).region_spec().words().len() == old(self).region_spec().words().len(),
            pte_is_pointer(final(self).pte_at(t, i as int)),
            r == pte_page(final(self).pte_at(t, i as int)),
            final(self).levels().contains_key(r),
            final(self).levels()[r] == old(self).levels()[t] + 1,
            pte_valid(old(self).pte_at(t, i as int)) ==> *final(self) == *old(self),
            !pte_valid(old(self).pte_at(t, i as int)) ==> {
                &&& r == old(self).free_pages()[0]
                &&& final(self).free_pages() == old(self).free_pages().skip(1)
                &&& final(self).levels() == old(self).levels().insert(r, old(self).levels()[t] + 1)
                &&& forall|j: int| 0 <= j < 512 ==> #[trigger] final(self).pte_at(r, j) == 0
                &&& forall|q: u64, j: int|
                    old(self).is_page(q) && q != r && 0 <= j < 512 && (q != t || j != i)
                        ==> #[trigger] final(self).pte_at(q, j) == old(self).pte_at(q, j)
            },
    {
        proof {
            lemma_slot(self.region, t, i as int);
        }
        let pte = self.region.read(t + i * 8);
        if pte & PTE_VALID != 0 {
            proof {
                lemma_pointer_bits(pte);
            }
            (pte >> 10) << 12
        } else {
            let ghost s0 = *self;
            let page = self.alloc_page();
            let ghost s1 = *self;
            proof {
                assert(s0.is_page(s0.free@[0]));
                lemma_pointer_pte(page);
                assert(!s0.level@.contains_key(page));
            }
            self.write_entry(t, i, (page >> 2) | PTE_VALID);
            let ghost s2 = *self;
            let ghost lv = self.level@[t] + 1;
            self.level = Ghost(self.level@.insert(page, lv));
            self.owner = Ghost(self.owner@.insert(page, (t + i * 8) as u64));
            proof {
                assert(!pte_is_pointer(0)) by (bit_vector);
                assert forall|q: u64, j: int|
                    s0.is_page(q) && q != page && 0 <= j < 512 && (q != t || j != i) implies #[trigger] self.pte_at(
                    q,
                    j,
                ) == s0.pte_at(q, j) by {
                    assert(s1.is_page(q));
                    assert(s2.pte_at(q, j) == s1.pte_at(q, j));
                    assert(s1.pte_at(q, j) == s0.pte_at(q, j));
                }
                assert forall|q: u64, j: int| 0 <= j < 512 && q == page implies #[trigger] self.pte_at(
                    q,
                    j,
                ) == 0 by {
                    assert(s1.is_page(page));
                    assert(s2.pte_at(page, j) == s1.pte_at(page, j));
                    assert(s1.pte_at(page, j) == 0);
                }
                assert forall|q: u64| #[trigger]
                    self.level@.contains_key(q) implies self.is_page(q) && !self.free@.contains(q)
                    && self.level@[q] <= 2 by {
                    if q != page {
                        assert(s0.level@.contains_key(q));
                    }
                }
                assert forall|q: u64, j: int|
                    self.level@.contains_key(q) && 0 <= j < 512 && pte_is_pointer(
                        #[trigger] self.pte_at(q, j),
                    ) implies ({
                    let c = pte_page(self.pte_at(q, j));
                    &&& self.level@[q] < 2
                    &&& self.level@.contains_key(c)
                    &&& self.level@[c] == self.level@[q] + 1
                    &&& self.owner@.contains_key(c)
                    &&& self.owner@[c] == slot_addr(q, j)
                }) by {
                    if q == page {
                    } else if q == t && j == i {
                    } else {
                        assert(s0.level@.contains_key(q));
                        assert(self.pte_at(q, j) == s0.pte_at(q, j));
                        assert(s0.level@.contains_key(pte_page(s0.pte_at(q, j))));
                    }
                }
                assert forall|k: int| 0 <= k < 4 implies self.level@.contains_key(
                    #[trigger] self.root_page_tables@[k],
                ) && self.level@[self.root_page_tables@[k]] == 0 by {
                    assert(s0.level@.contains_key(s0.root_page_tables@[k]));
                }
                let f = self.free@;
                assert forall|k: int| 0 <= k < f.len() - 1 implies self.pte_at(#[trigger] f[k], 0)
                    == f[k + 1] by {
                    assert(s2.pte_at(s2.free@[k], 0) == s2.free@[k + 1]);
                }
                assert forall|k: int| 0 <= k < f.len() implies #[trigger] self.is_page(f[k]) by {
                    assert(s2.is_page(s2.free@[k]));
                }
                assert(self.free_list_ok());
                assert(self.tables_ok());
            }
            page
        }
    }

    /// Returns the physical address of the last-level entry for `va` under
    /// `root`, allocating the tables on the way that are missing.
    pub fn pte_for_addr(&mut self, root: PageTableRoot, va: u64) -> (r: u64)
        requires
            old(self).wf(),
            va < DIRECT_MAP_OFFSET,
            sv39_spec(va),
            root != PageTableRoot::MPA,
            old(self).path_ok(root, va),
            old(self).free_pages().len() >= old(self).missing_tables(root, va),
        ensures
            Self::walk_outcome(*old(self), *final(self), root, va, r),
    {
        let ghost s0 = *self;
        let root_table = self.root_pa(root);
        proof {
            lemma_va_index_bound(va);
            assert(self.level@.contains_key(self.root_page_tables@[root_index(root)]));
        }
        let t1 = self.next_table(root_table, (va >> 30) & 0x1ff);
        let ghost s1 = *self;
        proof {
            if !pte_valid(s0.entry0(root, va)) {
                assert(self.pte_at(t1, va_index(va, 1) as int) == 0);
                assert(!pte_valid(0)) by (bit_vector);
                assert(s0.free@.skip(1).len() == s0.free@.len() - 1);
            }
        }
        let t2 = self.next_table(t1, (va >> 21) & 0x1ff);
        proof {
            let ri = self.root_page_tables@[root_index(root)];
            assert(s0.level@.contains_key(ri));
            assert(s0.is_page(ri));
            assert(self.pte_at(ri, va_index(va, 0) as int) == s1.pte_at(ri, va_index(va, 0) as int));
            lemma_pointer_bits(self.entry0(root, va));
            lemma_pointer_bits(self.entry1(root, va));
            assert(self.is_page(t2));
            lemma_slot(self.region, t2, va_index(va, 2) as int);
            if s0.missing_tables(root, va) == 2 {
                assert(s0.free@.skip(1).skip(1) =~= s0.free@.skip(2));
            }
            if s0.missing_tables(root, va) == 0 {
                assert(s0.free@.skip(0) =~= s0.free@);
            }
            let i0 = va_index(va, 0) as int;
            let i1 = va_index(va, 1) as int;
            let m = s0.missing_tables(root, va);
            assert(s1.level@[t1] == 1);
            assert(s1.level@.contains_key(ri));
            if m >= 1 {
                assert(s0.is_page(s0.free@[m - 1]));
            }
            assert(s1.is_page(t1));
            assert forall|q: u64, j: int|
                (s0.is_page(q) && 0 <= j < 512 && !s0.free@.take(m as int).contains(q) && (q != ri || j != i0)
                    && (q != t1 || j != i1)) implies #[trigger] self.pte_at(q, j) == s0.pte_at(q, j) by {
                if m == 2 {
                    assert(s0.free@.take(2)[0] == s0.free@[0]);
                    assert(s0.free@.take(2)[1] == s0.free@[1]);
                    assert(s1.free@[0] == s0.free@[1]);
                } else if m == 1 {
                    assert(s0.free@.take(1)[0] == s0.free@[0]);
                }
                assert(s1.pte_at(q, j) == s0.pte_at(q, j));
            }
            if m == 2 {
                assert(s1.free@[0] == s0.free@[1]);
                assert forall|j: int| 0 <= j < 512 && j != i1 implies #[trigger] self.pte_at(t1, j) == 0 by {
                    assert(s1.pte_at(t1, j) == 0);
                }
            }
        }
        t2 + ((va >> 12) & 0x1ff) * 8
    }

    /// Installs `pte` as the last-level entry for `va` under `root`,
    /// allocating the tables on the way that are missing.
    pub fn set_mapping(&mut self, root: PageTableRoot, va: u64, pte: u64)
        requires
            old(self).wf(),
            va < DIRECT_MAP_OFFSET,
            sv39_spec(va),
            root != PageTableRoot::MPA,
            old(self).path_ok(root, va),
            old(self).free_pages().len() >= old(self).missing_tables(root, va),
            !pte_is_pointer(pte),
        ensures
            final(self).wf(),
            final(self).roots() == old(self).roots(),
            final(self).missing_tables(root, va) == 0,
            final(self).path_ok(root, va),
            final(self).region_spec().word(final(self).leaf_slot(root, va)) == pte,
            final(self).free_pages() == old(self).free_pages().skip(
                old(self).missing_tables(root, va) as int,
            ),
            old(self).missing_tables(root, va) <= 1 ==> final(self).entry0(root, va) == old(self).entry0(root, va),
            forall|q: u64, j: int|
                (old(self).is_page(q) && 0 <= j < 512 && !old(self).free_pages().take(
                    old(self).missing_tables(root, va) as int,
                ).contains(q) && (q != old(self).root_spec(root) || j != va_index(va, 0)) && (q
                    != pte_page(final(self).entry0(root, va)) || j != va_index(va, 1)) && (q != final(self).leaf_table(root, va)
                    || j != va_index(va, 2))) ==> #[trigger] final(self).pte_at(q, j) == old(self).pte_at(q, j),
    {
        let ghost s0 = *self;
        let pte_addr = self.pte_for_addr(root, va);
        let ghost s1 = *self;
        proof {
            lemma_va_index_bound(va);
        }
        let index = (va >> 12) & 0x1ff;
        let leaf = pte_addr - index * 8;
        proof {
            assert(leaf == self.leaf_table(root, va));
            assert(self.is_page(leaf));
        }
        self.write_entry(leaf, index, pte);
        proof {
            let ri = self.root_page_tables@[root_index(root)];
            assert(s1.level@.contains_key(ri));
            assert(s1.is_page(ri));
            assert(s1.level@[ri] == 0);
            assert(ri != leaf);
            assert(self.pte_at(ri, va_index(va, 0) as int) == s1.pte_at(ri, va_index(va, 0) as int));
            let t1 = pte_page(s1.entry0(root, va));
            lemma_pointer_bits(s1.entry0(root, va));
            assert(s1.level@.contains_key(t1));
            assert(s1.level@[t1] == 1);
            assert(s1.is_page(t1));
            assert(self.pte_at(t1, va_index(va, 1) as int) == s1.pte_at(t1, va_index(va, 1) as int));
            assert(self.entry0(root, va) == s1.entry0(root, va));
            assert(self.pte_at(t1, va_index(va, 1) as int) == s1.pte_at(t1, va_index(va, 1) as int));
            assert(self.leaf_table(root, va) == leaf);
            assert forall|q: u64, j: int|
                (s0.is_page(q) && 0 <= j < 512 && !s0.free_pages().take(s0.missing_tables(root, va) as int).contains(q)
                    && (q != s0.root_spec(root) || j != va_index(va, 0)) && (q != pte_page(self.entry0(root, va))
                    || j != va_index(va, 1)) && (q != leaf || j != va_index(va, 2))) implies #[trigger] self.pte_at(q, j)
                == s0.pte_at(q, j) by {
                assert(s1.is_page(q));
                assert(self.pte_at(q, j) == s1.pte_at(q, j));
                assert(s1.pte_at(q, j) == s0.pte_at(q, j));
            }
        }
    }
}

/// `b` is what remains of `a` once some pages were pushed in front of it.
pub open spec fn has_suffix(a: Seq<u64>, b: Seq<u64>) -> bool {
    b.len() <= a.len() && a.subrange(a.len() - b.len(), a.len() as int) == b
}

proof fn lemma_suffix_push(p: u64, a: Seq<u64>, b: Seq<u64>, c: Seq<u64>)
    requires
        has_suffix(a, b),
        has_suffix(b, c),
    ensures
        has_suffix(seq![p] + a, c),
{
    let d = seq![p] + a;
    assert(d.subrange(d.len() - c.len(), d.len() as int) =~= a.subrange(
        a.len() - c.len(),
        a.len() as int,
    ));
    assert(b.subrange(b.len() - c.len(), b.len() as int) =~= a.subrange(
        a.len() - c.len(),
        a.len() as int,
    ));
}

/// The entry that owns table `c` lies in the table at `r`.
pub open spec fn page_owned_by(t: PageTables, c: u64, r: u64) -> bool {
    exists|i: int| 0 <= i < 512 && t.owners()[c] == #[trigger] slot_addr(r, i)
}

pub proof fn lemma_suffix_trans(a: Seq<u64>, b: Seq<u64>, c: Seq<u64>)
    requires
        has_suffix(a, b),
        has_suffix(b, c),
    ensures
        has_suffix(a, c),
{
    assert(a.subrange(a.len() - c.len(), a.len() as int) =~= b.subrange(
        b.len() - c.len(),
        b.len() as int,
    ));
}

pub proof fn lemma_suffix_contains(a: Seq<u64>, b: Seq<u64>, x: u64)
    requires
        has_suffix(a, b),
        b.contains(x),
    ensures
        a.contains(x),
{
    let k = choose|k: int| 0 <= k < b.len() && b[k] == x;
    assert(a.subrange(a.len() - b.len(), a.len() as int)[k] == b[k]);
    assert(a[a.len() - b.len() + k] == x);
}

/// The free list is a matter of the region, the head and the free pages alone.
proof fn lemma_free_list_same(a: PageTables, b: PageTables)
    requires
        a.free_list_ok(),
        a.region == b.region,
        a.free == b.free,
        a.free_list_head == b.free_list_head,
    ensures
        b.free_list_ok(),
{
    let f = b.free@;
    assert forall|k: int| 0 <= k < f.len() - 1 implies b.pte_at(#[trigger] f[k], 0) == f[k + 1] by {
        assert(a.pte_at(a.free@[k], 0) == a.free@[k + 1]);
    }
    assert forall|k: int| 0 <= k < f.len() implies #[trigger] b.is_page(f[k]) by {
        assert(a.is_page(a.free@[k]));
    }
}

impl PageTables {
    /// Returns the cleared table `page`, named by entry `i` of table `pa`,
    /// to the free list and invalidates that entry.
    fn free_child(&mut self, pa: u64, i: u64, page: u64)
        requires
            old(self).wf(),
            old(self).levels().contains_key(pa),
            i < 512,
            pte_is_pointer(old(self).pte_at(pa, i as int)),
            page == pte_page(old(self).pte_at(pa, i as int)),
            forall|j: int| 0 <= j < 512 ==> #[trigger] old(self).pte_at(page, j) == 0,
        ensures
            final(self).wf(),
            final(self).root_page_tables == old(self).root_page_tables,
            final(self).owner == old(self).owner,
            final(self).region.base_spec() == old(self).region.base_spec(),
            final(self).region.words().len() == old(self).region.words().len(),
            final(self).level@ == old(self).level@.remove(page),
            final(self).free@ == seq![page] + old(self).free@,
            final(self).pte_at(pa, i as int) == 0,
            forall|q: u64, j: int|
                old(self).is_page(q) && 0 <= j < 512 && q != page && (q != pa || j != i)
                    ==> #[trigger] final(self).pte_at(q, j) == old(self).pte_at(q, j),
    {
        let ghost s1 = *self;
        proof {
            assert(s1.level@.contains_key(page));
            assert(s1.is_page(page));
            assert(s1.is_page(pa));
            assert(s1.level@[page] == s1.level@[pa] + 1);
            assert(!pte_is_pointer(0)) by (bit_vector);
        }
        self.free_page(page);
        let ghost s2 = *self;
        proof {
            assert(!self.free@.contains(pa)) by {
                if self.free@.contains(pa) {
                    let k = choose|k: int| 0 <= k < self.free@.len() && self.free@[k] == pa;
                    if k > 0 {
                        assert(s1.free@[k - 1] == pa);
                    }
                }
            }
        }
        self.write_entry(pa, i, 0);
        let ghost s3 = *self;
        self.level = Ghost(self.level@.remove(page));
        proof {
            lemma_free_list_same(s3, *self);
            assert forall|q: u64, j: int|
                s1.is_page(q) && 0 <= j < 512 && q != page && (q != pa || j != i) implies #[trigger] self.pte_at(
                q,
                j,
            ) == s1.pte_at(q, j) by {
                assert(s3.pte_at(q, j) == s2.pte_at(q, j));
                assert(s2.pte_at(q, j) == s1.pte_at(q, j));
            }
            assert(self.pte_at(pa, i as int) == s3.pte_at(pa, i as int));
            assert forall|q: u64| #[trigger]
                self.level@.contains_key(q) implies self.is_page(q) && !self.free@.contains(q)
                && self.level@[q] <= 2 by {
                assert(s1.level@.contains_key(q));
                if self.free@.contains(q) {
                    let k = choose|k: int| 0 <= k < self.free@.len() && self.free@[k] == q;
                    if k > 0 {
                        assert(s1.free@[k - 1] == q);
                    }
                }
            }
            assert forall|q: u64, j: int|
                self.level@.contains_key(q) && 0 <= j < 512 && pte_is_pointer(
                    #[trigger] self.pte_at(q, j),
                ) implies ({
                let c = pte_page(self.pte_at(q, j));
                &&& self.level@[q] < 2
                &&& self.level@.contains_key(c)
                &&& self.level@[c] == self.level@[q] + 1
                &&& self.owner@.contains_key(c)
                &&& self.owner@[c] == slot_addr(q, j)
            }) by {
                assert(s1.level@.contains_key(q));
                assert(s1.is_page(q));
                if q != pa || j != i {
                    assert(self.pte_at(q, j) == s1.pte_at(q, j));
                    let c = pte_page(s1.pte_at(q, j));
                    if c == page {
                        assert(s1.owner@[page] == slot_addr(pa, i as int));
                        lemma_slots_distinct(s1.region, q, j, pa, i as int);
                    }
                } else {
                    assert(self.pte_at(q, j) == 0);
                }
            }
            assert forall|k: int| 0 <= k < 4 implies self.level@.contains_key(
                #[trigger] self.root_page_tables@[k],
            ) && self.level@[self.root_page_tables@[k]] == 0 by {
                assert(s1.level@.contains_key(s1.root_page_tables@[k]));
            }
        }
    }

    /// Invalidates entries `start_index..end_index` of the table at `pa`.
    /// Each entry that points to a table first has that table's whole
    /// subtree invalidated, and the table page then goes back to the free
    /// list.
    #[verifier::rlimit(100)]
    #[verifier::spinoff_prover]
    pub fn clear_page_table_range(&mut self, pa: u64, start_index: u64, end_index: u64)
        requires
            old(self).wf(),
            old(self).levels().contains_key(pa),
            start_index <= end_index <= 512,
        ensures
            Self::clear_outcome(*old(self), *final(self), pa, start_index, end_index),
        decreases 2 - old(self).levels()[pa],
    {
        proof {
            assert(self.free@.subrange(0, self.free@.len() as int) =~= self.free@);
        }
        let ghost o = *old(self);
        let mut i = start_index;
        while i < end_index
            invariant
                self.wf(),
                o == *old(self),
                start_index <= i <= end_index <= 512,
                self.root_page_tables == o.root_page_tables,
                self.owner == o.owner,
                self.region.base_spec() == o.region.base_spec(),
                self.region.words().len() == o.region.words().len(),
                self.level@.contains_key(pa),
                self.level@[pa] == o.level@[pa],
                forall|j: int| start_index <= j < i ==> #[trigger] self.pte_at(pa, j) == 0,
                forall|j: int|
                    0 <= j < 512 && !(start_index <= j < i) ==> #[trigger] self.pte_at(pa, j)
                        == o.pte_at(pa, j),
                forall|t: u64| #[trigger] o.level@.contains_key(t) && t != pa && o.level@[t] <= o.level@[pa] ==> self.level@.contains_key(t) && self.level@[t] == o.level@[t],
                forall|t: u64, j: int| (o.level@.contains_key(t) && t != pa && o.level@[t] <= o.level@[pa] && 0 <= j < 512) ==> #[trigger] self.pte_at(t, j) == o.pte_at(t, j),
                forall|t: u64| #[trigger]
                    self.level@.contains_key(t) ==> o.level@.contains_key(t)
                        && self.level@[t] == o.level@[t],
                has_suffix(self.free@, o.free@),
                o.wf(),
                o.level@.contains_key(pa),
                forall|k: int|
                    0 <= k < self.free@.len() - o.free@.len() ==> o.reclaimed(
                        pa,
                        start_index as int,
                        i as int,
                        #[trigger] self.free@[k],
                    ),
                forall|q: u64| #[trigger]
                    o.reclaimed(pa, start_index as int, i as int, q) ==> !self.level@.contains_key(q)
                        && self.free@.contains(q),
                forall|t: u64|
                    o.level@.contains_key(t) && t != pa && !o.reclaimed(pa, start_index as int, i as int, t)
                        ==> #[trigger] self.level@.contains_key(t) && self.level@[t] == o.level@[t],
                forall|t: u64, k: int|
                    (o.is_page(t) && t != pa && !o.reclaimed(pa, start_index as int, i as int, t) && 0 <= k < 512)
                        ==> #[trigger] self.pte_at(t, k) == o.pte_at(t, k),
            decreases end_index - i,
        {
            let ghost s0 = *self;
            proof {
                assert(s0.is_page(pa));
                lemma_slot(self.region, pa, i as int);
                assert(!pte_is_pointer(0)) by (bit_vector);
            }
            let pte = self.region.read(pa + i * 8);
            if pte & PTE_RWXV == PTE_VALID {
                let page = (pte >> 10) << 12;
                proof {
                    assert(s0.pte_at(pa, i as int) == pte);
                    assert(s0.level@.contains_key(page));
                    assert(o.pte_at(pa, i as int) == pte);
                    assert(o.level@[page] == o.level@[pa] + 1);
                    assert(o.owner@[page] == slot_addr(pa, i as int));
                    assert(!o.reclaimed(pa, start_index as int, i as int, page)) by {
                        if o.reclaimed(pa, start_index as int, i as int, page) {
                            let j = choose|j: int| start_index <= j < i && #[trigger] o.hangs_from(pa, j, page);
                            let ej = o.pte_at(pa, j);
                            let d = pte_page(ej);
                            assert(o.level@.contains_key(d));
                            if page == d {
                                assert(o.owner@[page] == slot_addr(pa, j));
                                lemma_slots_distinct(o.region, pa, j, pa, i as int);
                            } else {
                                let k = choose|k: int|
                                    0 <= k < 512 && pte_is_pointer(#[trigger] o.pte_at(d, k)) && page == pte_page(
                                        o.pte_at(d, k),
                                    );
                                assert(o.level@[d] == o.level@[pa] + 1);
                                assert(o.level@[page] == o.level@[d] + 1);
                            }
                        }
                    }
                    assert(o.is_page(page));
                    assert forall|k: int| 0 <= k < 512 implies #[trigger] s0.pte_at(page, k) == o.pte_at(page, k) by {
                    }
                }
                self.clear_page_table_range(page, 0, 512);
                let ghost s1 = *self;
                proof {
                    assert(s1.pte_at(pa, i as int) == pte);
                    assert(s1.level@.contains_key(pa));
                }
                self.free_child(pa, i, page);
                proof {
                    assert forall|t: u64, j: int| (o.level@.contains_key(t) && t != pa && o.level@[t] <= o.level@[pa] && 0 <= j < 512) implies (self.level@.contains_key(t) && self.level@[t] == o.level@[t] && #[trigger] self.pte_at(t, j) == o.pte_at(t, j)) by {
                        assert(s0.pte_at(t, j) == o.pte_at(t, j));
                        assert(s1.pte_at(t, j) == s0.pte_at(t, j));
                        assert(s1.is_page(t));
                    }
                    assert forall|j: int| start_index <= j <= i implies #[trigger] self.pte_at(pa, j)
                        == 0 by {
                        if j < i {
                            assert(s0.pte_at(pa, j) == 0);
                            assert(s1.pte_at(pa, j) == s0.pte_at(pa, j));
                        }
                    }
                    assert forall|j: int|
                        0 <= j < 512 && !(start_index <= j < i + 1) implies #[trigger] self.pte_at(pa, j)
                        == o.pte_at(pa, j) by {
                        assert(s0.pte_at(pa, j) == o.pte_at(pa, j));
                        assert(s1.pte_at(pa, j) == s0.pte_at(pa, j));
                    }
                    lemma_suffix_push(page, s1.free@, s0.free@, o.free@);
                    assert forall|k: int| 0 <= k < self.free@.len() - o.free@.len() implies o.reclaimed(
                        pa,
                        start_index as int,
                        i + 1,
                        #[trigger] self.free@[k],
                    ) by {
                        let x = self.free@[k];
                        if k == 0 {
                            assert(o.hangs_from(pa, i as int, x));
                        } else {
                            let d1 = s1.free@.len() - s0.free@.len();
                            assert(x == s1.free@[k - 1]);
                            if k - 1 < d1 {
                                assert(s0.reclaimed(page, 0, 512, s1.free@[k - 1]));
                                let m = choose|m: int| 0 <= m < 512 && #[trigger] s0.hangs_from(page, m, x);
                                let em = s0.pte_at(page, m);
                                assert(s0.pte_at(page, m) == o.pte_at(page, m));
                                if x == pte_page(em) {
                                    assert(o.hangs_from(pa, i as int, x));
                                } else {
                                    let d = pte_page(em);
                                    let n = choose|n: int|
                                        0 <= n < 512 && pte_is_pointer(#[trigger] s0.pte_at(d, n)) && x == pte_page(
                                            s0.pte_at(d, n),
                                        );
                                    assert(s0.level@[page] == s0.level@[pa] + 1);
                                    assert(s0.level@.contains_key(d));
                                    assert(s0.level@[d] == s0.level@[page] + 1);
                                }
                            } else {
                                assert(s1.free@.subrange(s1.free@.len() - s0.free@.len(), s1.free@.len() as int)[k - 1 - d1]
                                    == s0.free@[k - 1 - d1]);
                                assert(x == s0.free@[k - 1 - d1]);
                                assert(o.reclaimed(pa, start_index as int, i as int, s0.free@[k - 1 - d1]));
                                let j = choose|j: int| start_index <= j < i && #[trigger] o.hangs_from(pa, j, x);
                            }
                        }
                    }
                    assert forall|q: u64| #[trigger]
                        o.reclaimed(pa, start_index as int, i + 1, q) implies !self.level@.contains_key(q)
                        && self.free@.contains(q) by {
                        let j = choose|j: int| start_index <= j < i + 1 && #[trigger] o.hangs_from(pa, j, q);
                        if j < i {
                            assert(o.reclaimed(pa, start_index as int, i as int, q));
                            lemma_suffix_contains(s1.free@, s0.free@, q);
                        } else if q != page {
                            let k = choose|k: int|
                                0 <= k < 512 && pte_is_pointer(#[trigger] o.pte_at(page, k)) && q == pte_page(
                                    o.pte_at(page, k),
                                );
                            assert(s0.pte_at(page, k) == o.pte_at(page, k));
                            assert(s0.hangs_from(page, k, q));
                            assert(s0.reclaimed(page, 0, 512, q));
                        }
                        assert(self.free@[0] == page);
                        if q != page {
                            assert(s1.free@.contains(q));
                            let m = choose|m: int| 0 <= m < s1.free@.len() && s1.free@[m] == q;
                            assert(self.free@[m + 1] == q);
                        }
                    }
                    assert forall|t: u64, k: int|
                        (o.is_page(t) && t != pa && !o.reclaimed(pa, start_index as int, i + 1, t) && 0 <= k < 512)
                        implies (self.level@.contains_key(t) == o.level@.contains_key(t) && (o.level@.contains_key(t) ==> self.level@[t] == o.level@[t])
                            && #[trigger] self.pte_at(t, k) == o.pte_at(t, k)) by {
                        if o.reclaimed(pa, start_index as int, i as int, t) {
                            let j = choose|j: int| start_index <= j < i && #[trigger] o.hangs_from(pa, j, t);
                            assert(o.reclaimed(pa, start_index as int, i + 1, t));
                        }
                        assert(!o.hangs_from(pa, i as int, t));
                        assert(t != page);
                        assert(s0.pte_at(t, k) == o.pte_at(t, k));
                        if s0.reclaimed(page, 0, 512, t) {
                            let m = choose|m: int| 0 <= m < 512 && #[trigger] s0.hangs_from(page, m, t);
                            let em = s0.pte_at(page, m);
                            assert(s0.pte_at(page, m) == o.pte_at(page, m));
                            if t == pte_page(em) {
                                assert(o.hangs_from(pa, i as int, t));
                            } else {
                                let d = pte_page(em);
                                let n = choose|n: int|
                                    0 <= n < 512 && pte_is_pointer(#[trigger] s0.pte_at(d, n)) && t == pte_page(
                                        s0.pte_at(d, n),
                                    );
                                assert(s0.level@[page] == s0.level@[pa] + 1);
                                assert(s0.level@.contains_key(d));
                                assert(s0.level@[d] == s0.level@[page] + 1);
                                assert(s0.level@[d] < 2);
                            }
                        }
                        assert(s1.pte_at(t, k) == s0.pte_at(t, k));
                        assert(s1.is_page(t));
                        assert(self.pte_at(t, k) == s1.pte_at(t, k));
                        if o.level@.contains_key(t) {
                            assert(s0.level@.contains_key(t));
                            assert(s1.level@.contains_key(t));
                        } else {
                            if self.level@.contains_key(t) {
                                assert(s1.level@.contains_key(t));
                                assert(s0.level@.contains_key(t));
                            }
                        }
                    }
                    assert forall|t: u64|
                        o.level@.contains_key(t) && t != pa && !o.reclaimed(pa, start_index as int, i + 1, t)
                            implies #[trigger] self.level@.contains_key(t) && self.level@[t] == o.level@[t] by {
                        assert(o.is_page(t));
                        assert(self.pte_at(t, 0) == o.pte_at(t, 0));
                    }
                }
            } else {
                proof {
                    lemma_pointer_bits(pte);
                }
                self.write_entry(pa, i, 0);
                proof {
                    assert forall|t: u64, j: int| (o.level@.contains_key(t) && t != pa && o.level@[t] <= o.level@[pa] && 0 <= j < 512) implies (self.level@.contains_key(t) && self.level@[t] == o.level@[t] && #[trigger] self.pte_at(t, j) == o.pte_at(t, j)) by {
                        assert(s0.pte_at(t, j) == o.pte_at(t, j));
                        assert(s0.level@.contains_key(t));
                        assert(s0.is_page(t));
                    }
                    assert forall|j: int| start_index <= j <= i implies #[trigger] self.pte_at(pa, j)
                        == 0 by {
                        if j < i {
                            assert(s0.pte_at(pa, j) == 0);
                        }
                    }
                    assert forall|j: int|
                        0 <= j < 512 && !(start_index <= j < i + 1) implies #[trigger] self.pte_at(pa, j)
                        == o.pte_at(pa, j) by {
                        assert(s0.pte_at(pa, j) == o.pte_at(pa, j));
                    }
                    assert(s0.pte_at(pa, i as int) == o.pte_at(pa, i as int));
                    assert(o.pte_at(pa, i as int) == pte);
                    assert forall|q: u64|
                        o.reclaimed(pa, start_index as int, i + 1, q) implies #[trigger] o.reclaimed(
                        pa,
                        start_index as int,
                        i as int,
                        q,
                    ) by {
                        let j = choose|j: int| start_index <= j < i + 1 && #[trigger] o.hangs_from(pa, j, q);
                        assert(j != i);
                    }
                    assert forall|q: u64| #[trigger]
                        o.reclaimed(pa, start_index as int, i + 1, q) implies !self.level@.contains_key(q)
                        && self.free@.contains(q) by {
                        assert(o.reclaimed(pa, start_index as int, i as int, q));
                    }
                    assert forall|k: int| 0 <= k < self.free@.len() - o.free@.len() implies o.reclaimed(
                        pa,
                        start_index as int,
                        i + 1,
                        #[trigger] self.free@[k],
                    ) by {
                        assert(o.reclaimed(pa, start_index as int, i as int, s0.free@[k]));
                        let j = choose|j: int| start_index <= j < i && #[trigger] o.hangs_from(pa, j, s0.free@[k]);
                    }
                    assert forall|t: u64, k: int|
                        (o.is_page(t) && t != pa && !o.reclaimed(pa, start_index as int, i + 1, t) && 0 <= k < 512)
                        implies #[trigger] self.pte_at(t, k) == o.pte_at(t, k) by {
                        if o.reclaimed(pa, start_index as int, i as int, t) {
                            let j = choose|j: int| start_index <= j < i && #[trigger] o.hangs_from(pa, j, t);
                            assert(o.reclaimed(pa, start_index as int, i + 1, t));
                        }
                        assert(s0.pte_at(t, k) == o.pte_at(t, k));
                    }
                    assert forall|t: u64|
                        o.level@.contains_key(t) && t != pa && !o.reclaimed(pa, start_index as int, i + 1, t)
                            implies #[trigger] self.level@.contains_key(t) && self.level@[t] == o.level@[t] by {
                        if o.reclaimed(pa, start_index as int, i as int, t) {
                            let j = choose|j: int| start_index <= j < i && #[trigger] o.hangs_from(pa, j, t);
                            assert(o.reclaimed(pa, start_index as int, i + 1, t));
                        }
                        assert(s0.level@.contains_key(t));
                        assert(s0.level@[t] == o.level@[t]);
                    }
                }
            }
            i += 1;
        }
    }
}

/// The translation-base register value that activates the root table at
/// `root_pa`: the Sv39 mode tag and the table's page number.
pub open spec fn satp_for(root_pa: u64) -> u64 {
    (8u64 << 60u64) | (root_pa >> 12u64)
}

/// What `install_root` returns when the register holds `satp`.
pub open spec fn install_spec(root_pa: u64, satp: u64) -> Option<u64> {
    if satp == satp_for(root_pa) {
        None
    } else {
        Some(satp_for(root_pa))
    }
}

impl PageTables {
    /// Decides whether activating `root` needs a register write, given the
    /// register's current value `satp`: returns the value to write, after
    /// which the caller invalidates the translation caches, or `None` when
    /// `root` is active already.
    pub fn install_root(&self, root: PageTableRoot, satp: u64) -> (r: Option<u64>)
        ensures
            r == install_spec(self.root_spec(root), satp),
    {
        let new_satp = (8 << 60) | (self.root_pa(root) >> 12);
        if satp != new_satp {
            Some(new_satp)
        } else {
            None
        }
    }
}

/// The direct-map entry for gigabyte `i` of physical memory: a 1 GiB leaf,
/// readable, writable, executable, accessed and dirty.
pub open spec fn direct_map_pte_spec(i: u64) -> u64 {
    (i << 28u64) | PTE_AD | PTE_RWXV
}

/// The 2 MiB leaf entry that maps guest memory onto host physical address `pa`.
pub open spec fn guest_megapage_pte(pa: u64) -> u64 {
    (pa >> 2u64) | PTE_AD | PTE_USER | PTE_RWXV
}

/// Returns the direct-map entry for gigabyte `i` of physical memory.
pub fn direct_map_pte(i: u64) -> (r: u64)
    ensures
        r == direct_map_pte_spec(i),
{
    (i << 28) | PTE_AD | PTE_RWXV
}

proof fn lemma_leaf_entries(i: u64, pa: u64)
    ensures
        !pte_is_pointer(direct_map_pte_spec(i)),
        !pte_is_pointer(guest_megapage_pte(pa)),
        !pte_is_pointer(HYPERVISOR_CODE_PTE),
{
    assert(((i << 28u64) | 0xc0u64 | 0xfu64) & 0xfu64 != 1u64) by (bit_vector);
    assert(((pa >> 2u64) | 0xc0u64 | 0x10u64 | 0xfu64) & 0xfu64 != 1u64) by (bit_vector);
    assert(0x200000cfu64 & 0xfu64 != 1u64) by (bit_vector);
}

impl PageTables {
    /// Installs in root `k` the direct-map window (entries 496 to 499) and
    /// the hypervisor code entry (entry 511).
    pub(crate) fn map_kernel_entries(&mut self, k: usize)
        requires
            old(self).wf(),
            k < 4,
        ensures
            final(self).wf(),
            final(self).roots() == old(self).roots(),
            final(self).free_pages() == old(self).free_pages(),
            final(self).levels() == old(self).levels(),
            final(self).region_spec().base_spec() == old(self).region_spec().base_spec(),
            final(self).region_spec().words().len() == old(self).region_spec().words().len(),
            forall|i: int|
                0 <= i < 4 ==> #[trigger] final(self).pte_at(old(self).roots()[k as int], 496 + i)
                    == direct_map_pte_spec(i as u64),
            final(self).pte_at(old(self).roots()[k as int], 511) == HYPERVISOR_CODE_PTE,
            forall|q: u64, j: int|
                old(self).is_page(q) && 0 <= j < 512 && (q != old(self).roots()[k as int] || j < 496
                    || 500 <= j < 511) ==> #[trigger] final(self).pte_at(q, j) == old(self).pte_at(q, j),
    {
        let root = self.root_page_tables[k];
        proof {
            assert(self.level@.contains_key(self.root_page_tables@[k as int]));
        }
        let mut i: u64 = 0;
        while i < 4
            invariant
                i <= 4,
                k < 4,
                root == old(self).roots()[k as int],
                self.wf(),
                self.root_page_tables == old(self).root_page_tables,
                self.free@ == old(self).free@,
                self.level@ == old(self).level@,
                self.region.base_spec() == old(self).region.base_spec(),
                self.region.words().len() == old(self).region.words().len(),
                self.level@.contains_key(root),
                forall|j: int| 0 <= j < i ==> #[trigger] self.pte_at(root, 496 + j) == direct_map_pte_spec(j as u64),
                forall|q: u64, j: int|
                    old(self).is_page(q) && 0 <= j < 512 && (q != root || j < 496 || 496 + i <= j)
                        ==> #[trigger] self.pte_at(q, j) == old(self).pte_at(q, j),
            decreases 4 - i,
        {
            let ghost s0 = *self;
            proof {
                lemma_leaf_entries(i, 0);
            }
            let v = direct_map_pte(i);
            self.write_entry(root, 496 + i, v);
            proof {
                assert forall|j: int| 0 <= j < i + 1 implies #[trigger] self.pte_at(root, 496 + j)
                    == direct_map_pte_spec(j as u64) by {
                    if j < i {
                        assert(s0.pte_at(root, 496 + j) == direct_map_pte_spec(j as u64));
                    }
                }
                assert forall|q: u64, j: int|
                    old(self).is_page(q) && 0 <= j < 512 && (q != root || j < 496 || 496 + i + 1 <= j)
                        implies #[trigger] self.pte_at(q, j) == old(self).pte_at(q, j) by {
                    assert(s0.pte_at(q, j) == old(self).pte_at(q, j));
                }
            }
            i += 1;
        }
        let ghost s1 = *self;
        proof {
            lemma_leaf_entries(0, 0);
        }
        self.write_entry(root, 511, HYPERVISOR_CODE_PTE);
        proof {
            assert forall|j: int| 0 <= j < 4 implies #[trigger] self.pte_at(root, 496 + j)
                == direct_map_pte_spec(j as u64) by {
                assert(s1.pte_at(root, 496 + j) == direct_map_pte_spec(j as u64));
            }
            assert forall|q: u64, j: int|
                old(self).is_page(q) && 0 <= j < 512 && (q != root || j < 496 || 500 <= j < 511)
                    implies #[trigger] self.pte_at(q, j) == old(self).pte_at(q, j) by {
                assert(s1.pte_at(q, j) == old(self).pte_at(q, j));
            }
        }
    }

    /// Maps the 2 MiB guest page at `va` onto host physical address `pa` in
    /// the machine-physical root, allocating the middle table if its root
    /// entry is invalid.
    pub(crate) fn map_guest_megapage(&mut self, va: u64, pa: u64)
        requires
            old(self).wf(),
            va >> 30u64 < 496,
            pte_valid(old(self).pte_at(old(self).roots()[0], (va >> 30u64) as int)) ==> pte_is_pointer(
                old(self).pte_at(old(self).roots()[0], (va >> 30u64) as int),
            ),
            !pte_valid(old(self).pte_at(old(self).roots()[0], (va >> 30u64) as int)) ==> old(self).free_pages().len() > 0,
        ensures
            final(self).wf(),
            final(self).roots() == old(self).roots(),
            ({
                let e = final(self).pte_at(old(self).roots()[0], (va >> 30u64) as int);
                &&& pte_is_pointer(e)
                &&& final(self).levels().contains_key(pte_page(e))
                &&& final(self).levels()[pte_page(e)] == 1
                &&& final(self).pte_at(pte_page(e), ((va >> 21u64) & 0x1ff) as int) == guest_megapage_pte(pa)
                &&& forall|q: u64, j: int|
                    old(self).is_page(q) && 0 <= j < 512 && q != pte_page(e) && (q != old(self).roots()[0]
                        || j != va >> 30u64) ==> #[trigger] final(self).pte_at(q, j) == old(self).pte_at(q, j)
                &&& pte_valid(old(self).pte_at(old(self).roots()[0], (va >> 30u64) as int)) ==> e
                    == old(self).pte_at(old(self).roots()[0], (va >> 30u64) as int)
                &&& pte_valid(old(self).pte_at(old(self).roots()[0], (va >> 30u64) as int)) ==> forall|j: int|
                    0 <= j < 512 && j != ((va >> 21u64) & 0x1ff) ==> #[trigger] final(self).pte_at(pte_page(e), j)
                        == old(self).pte_at(pte_page(e), j)
            }),
            final(self).free_pages() == old(self).free_pages().skip(
                if pte_valid(old(self).pte_at(old(self).roots()[0], (va >> 30u64) as int)) { 0int } else { 1int },
            ),
            final(self).region_spec().base_spec() == old(self).region_spec().base_spec(),
            final(self).region_spec().words().len() == old(self).region_spec().words().len(),
    {
        let root = self.root_page_tables[0];
        proof {
            assert(self.level@.contains_key(self.root_page_tables@[0]));
        }
        let t = self.next_table(root, va >> 30);
        let ghost s1 = *self;
        proof {
            lemma_leaf_entries(0, pa);
            assert((va >> 21u64) & 0x1ffu64 < 512) by (bit_vector);
            assert(s1.is_page(t));
            assert(!s1.free@.contains(t));
        }
        self.write_entry(t, (va >> 21) & 0x1ff, (pa >> 2) | PTE_AD | PTE_USER | PTE_RWXV);
        proof {
            assert(s1.level@[t] == 1);
            assert(s1.is_page(root));
            assert(self.pte_at(root, (va >> 30u64) as int) == s1.pte_at(root, (va >> 30u64) as int));
            if !pte_valid(old(self).pte_at(root, (va >> 30u64) as int)) {
                assert forall|q: u64, j: int|
                    old(self).is_page(q) && 0 <= j < 512 && q != t && (q != root || j != va >> 30u64)
                        implies #[trigger] self.pte_at(q, j) == old(self).pte_at(q, j) by {
                    assert(s1.pte_at(q, j) == old(self).pte_at(q, j));
                }
            } else {
                assert(old(self).free@.skip(0) =~= old(self).free@);
                assert forall|j: int|
                    0 <= j < 512 && j != ((va >> 21u64) & 0x1ff) implies #[trigger] self.pte_at(t, j)
                        == old(self).pte_at(t, j) by {
                    assert(s1.pte_at(t, j) == old(self).pte_at(t, j));
                }
            }
        }
    }
}

/// An entry of a page lies in the region, right after the entries before it.
pub proof fn lemma_slot(region: MemoryRegion, t: u64, i: int)
    requires
        region.base_spec() % 4096 == 0,
        t % 4096 == 0,
        region.base_spec() <= t,
        t + 4096 <= region.end_spec(),
        0 <= i < 512,
    ensures
        region.holds_word(slot_addr(t, i)),
        region.index_of(slot_addr(t, i)) == region.index_of(t as int) + i,
        region.index_of(t as int) % 512 == 0,
        0 <= region.index_of(slot_addr(t, i)) < region.words().len(),
{
    let b = region.base_spec();
    assert((t - b) % 4096 == 0) by (nonlinear_arith)
        requires
            b % 4096 == 0,
            t % 4096 == 0,
            b <= t,
    ;
    assert(((t - b) / 8) % 512 == 0) by (nonlinear_arith)
        requires
            (t - b) % 4096 == 0,
            b <= t,
    ;
    assert((t + 8 * i - b) / 8 == (t - b) / 8 + i) by (nonlinear_arith)
        requires
            (t - b) % 4096 == 0,
            b <= t,
    ;
}

/// Entries of two different pages, or two entries of one page, are two words.
pub proof fn lemma_slots_distinct(region: MemoryRegion, t: u64, i: int, q: u64, j: int)
    requires
        region.base_spec() % 4096 == 0,
        t % 4096 == 0,
        region.base_spec() <= t,
        t + 4096 <= region.end_spec(),
        q % 4096 == 0,
        region.base_spec() <= q,
        q + 4096 <= region.end_spec(),
        0 <= i < 512,
        0 <= j < 512,
        t != q || i != j,
    ensures
        region.index_of(slot_addr(t, i)) != region.index_of(slot_addr(q, j)),
{
    lemma_slot(region, t, i);
    lemma_slot(region, q, j);
    let b = region.base_spec();
    let a = region.index_of(t as int);
    let c = region.index_of(q as int);
    assert(a * 8 == t - b && c * 8 == q - b) by (nonlinear_arith)
        requires
            a == (t - b) / 8,
            c == (q - b) / 8,
            (t - b) % 4096 == 0,
            (q - b) % 4096 == 0,
    {
    }
    assert(a != c ==> a + i != c + j) by (nonlinear_arith)
        requires
            a % 512 == 0,
            c % 512 == 0,
            0 <= i < 512,
            0 <= j < 512,
    ;
}

} // verus!
