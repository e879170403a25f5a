use vstd::prelude::*;

use crate::page_tables::{
    has_suffix, lemma_slots_distinct, lemma_suffix_contains, lemma_suffix_trans, slot_addr, PageTableRoot,
    PageTables,
};
use crate::pte::{pte_is_pointer, pte_page};
use crate::pte::DIRECT_MAP_PT_INDEX;

verus! {

/// Declares the decoded instruction type of riscv_decode, which traps hand
/// over; nothing is read from it.
#[verifier::external_type_specification]
#[verifier::external_body]
pub struct ExInstruction(riscv_decode::Instruction);

/// Root slots below this index hold no direct-map or hypervisor entry.
pub open spec fn shadow_slots() -> int {
    496
}

/// Table `q` hangs from an entry below the direct map in one of the roots
/// `1..upto` (user, kernel, monitor).
pub open spec fn flushed(t: PageTables, upto: int, q: u64) -> bool {
    exists|j: int| 1 <= j < upto && #[trigger] t.reclaimed(t.roots()[j], 0, shadow_slots(), q)
}

/// `flush_shadow_page_table` on `pre` gave `post`.
pub open spec fn flush_outcome(pre: PageTables, post: PageTables) -> bool {
    &&& post.wf()
    &&& post.roots() == pre.roots()
    &&& forall|root: PageTableRoot, i: int|
        root != PageTableRoot::MPA && 0 <= i < shadow_slots() ==> #[trigger] post.pte_at(post.root_spec(root), i) == 0
    &&& forall|root: PageTableRoot, i: int|
        (root == PageTableRoot::MPA && 0 <= i < 512) || (shadow_slots() <= i < 512) ==> #[trigger] post.pte_at(
            post.root_spec(root),
            i,
        ) == pre.pte_at(pre.root_spec(root), i)
    &&& forall|q: u64| #[trigger]
        flushed(pre, 4, q) ==> !post.levels().contains_key(q) && post.free_pages().contains(q)
    &&& forall|t: u64, i: int|
        (pre.is_page(t) && !flushed(pre, 4, t) && t != pre.roots()[1] && t != pre.roots()[2] && t
            != pre.roots()[3] && 0 <= i < 512) ==> #[trigger] post.pte_at(t, i) == pre.pte_at(t, i)
    &&& forall|t: u64| #[trigger]
        post.levels().contains_key(t) ==> pre.levels().contains_key(t) && post.levels()[t] == pre.levels()[t]
    &&& has_suffix(post.free_pages(), pre.free_pages())
}

/// Invalidates, in the user, kernel and monitor roots, every entry below
/// the direct map, returning the tables under them to the free list. The
/// machine-physical root and everything under it is left as it is. The
/// caller then invalidates the translation caches.
pub fn flush_shadow_page_table(shadow_page_tables: &mut PageTables)
    requires
        old(shadow_page_tables).wf(),
    ensures
        flush_outcome(*old(shadow_page_tables), *final(shadow_page_tables)),
{
    let ghost s0 = *shadow_page_tables;
    proof {
        assert(s0.free_pages().subrange(0, s0.free_pages().len() as int) =~= s0.free_pages());
    }
    let mut k: usize = 0;
    while k < 3
        invariant
            0 <= k <= 3,
            shadow_page_tables.wf(),
            shadow_page_tables.roots() == s0.roots(),
            shadow_page_tables.region_spec().base_spec() == s0.region_spec().base_spec(),
            shadow_page_tables.region_spec().words().len() == s0.region_spec().words().len(),
            s0.wf(),
            forall|j: int, i: int|
                1 <= j < k + 1 && 0 <= i < 496 ==> #[trigger] shadow_page_tables.pte_at(s0.roots()[j], i) == 0,
            forall|j: int, i: int|
                0 <= j < 4 && 0 <= i < 512 && (j == 0 || j >= k + 1 || i >= 496) ==> #[trigger] shadow_page_tables.pte_at(
                    s0.roots()[j],
                    i,
                ) == s0.pte_at(s0.roots()[j], i),
            forall|q: u64| #[trigger]
                flushed(s0, k + 1, q) ==> !shadow_page_tables.levels().contains_key(q)
                    && shadow_page_tables.free_pages().contains(q),
            forall|t: u64, i: int|
                (s0.is_page(t) && !flushed(s0, k + 1, t) && (forall|j: int| 1 <= j < k + 1 ==> t != s0.roots()[j]) && 0 <= i < 512)
                    ==> #[trigger] shadow_page_tables.pte_at(t, i) == s0.pte_at(t, i),
            forall|t: u64| #[trigger]
                shadow_page_tables.levels().contains_key(t) ==> s0.levels().contains_key(t)
                    && shadow_page_tables.levels()[t] == s0.levels()[t],
            forall|t: u64|
                s0.levels().contains_key(t) && !flushed(s0, k + 1, t) ==> #[trigger] shadow_page_tables.levels().contains_key(t),
            has_suffix(shadow_page_tables.free_pages(), s0.free_pages()),
        decreases 3 - k,
    {
        let root = if k == 0 {
            PageTableRoot::UVA
        } else if k == 1 {
            PageTableRoot::KVA
        } else {
            PageTableRoot::MVA
        };
        let pa = shadow_page_tables.root_pa(root);
        let ghost s1 = *shadow_page_tables;
        proof {
            assert(pa == s0.roots()[k + 1]);
            assert(s1.levels().contains_key(s1.roots()[k + 1]));
        }
        proof {
            lemma_flush_same_hanging(s0, s1, k as int);
        }
        shadow_page_tables.clear_page_table_range(pa, 0, DIRECT_MAP_PT_INDEX / 8);
        proof {
            lemma_flush_advance(s0, s1, *shadow_page_tables, k as int);
            assert forall|j: int, i: int|
                1 <= j < k + 2 && 0 <= i < 496 implies #[trigger] shadow_page_tables.pte_at(
                s0.roots()[j],
                i,
            ) == 0 by {
                if j != k + 1 {
                    assert(s1.levels().contains_key(s1.roots()[j]));
                    assert(s1.levels()[s1.roots()[j]] == 0);
                    assert(s1.pte_at(s0.roots()[j], i) == 0);
                }
            }
            assert forall|j: int, i: int|
                0 <= j < 4 && 0 <= i < 512 && (j == 0 || j >= k + 2 || i >= 496) implies #[trigger] shadow_page_tables.pte_at(
                s0.roots()[j],
                i,
            ) == s0.pte_at(s0.roots()[j], i) by {
                assert(s1.pte_at(s0.roots()[j], i) == s0.pte_at(s0.roots()[j], i));
                if j != k + 1 {
                    assert(s1.levels().contains_key(s1.roots()[j]));
                    assert(s1.levels()[s1.roots()[j]] == 0);
                }
            }
        }
        k += 1;
    }
    proof {
        assert forall|root: PageTableRoot, i: int|
            root != PageTableRoot::MPA && 0 <= i < shadow_slots() implies #[trigger] shadow_page_tables.pte_at(
            shadow_page_tables.root_spec(root),
            i,
        ) == 0 by {
            let j = crate::page_tables::root_index(root);
            assert(shadow_page_tables.pte_at(s0.roots()[j], i) == 0);
        }
        assert forall|root: PageTableRoot, i: int|
            (root == PageTableRoot::MPA && 0 <= i < 512) || (shadow_slots() <= i < 512) implies #[trigger] shadow_page_tables.pte_at(
            shadow_page_tables.root_spec(root),
            i,
        ) == s0.pte_at(s0.root_spec(root), i) by {
            let j = crate::page_tables::root_index(root);
            assert(shadow_page_tables.pte_at(s0.roots()[j], i) == s0.pte_at(s0.roots()[j], i));
        }
        assert forall|t: u64, i: int|
            (s0.is_page(t) && !flushed(s0, 4, t) && t != s0.roots()[1] && t != s0.roots()[2] && t
                != s0.roots()[3] && 0 <= i < 512) implies #[trigger] shadow_page_tables.pte_at(t, i)
            == s0.pte_at(t, i) by {
            assert(forall|j: int| 1 <= j < 4 ==> t != s0.roots()[j]);
        }
    }
}

/// Handles a trapped translation-invalidation instruction by flushing the
/// shadow tables.
pub fn handle_sfence_vma(shadow_page_tables: &mut PageTables, _instruction: riscv_decode::Instruction)
    requires
        old(shadow_page_tables).wf(),
    ensures
        flush_outcome(*old(shadow_page_tables), *final(shadow_page_tables)),
{
    flush_shadow_page_table(shadow_page_tables);
}

/// Before root `k + 1` is cleared, the tables that hang from it are those
/// that hung from it at the start of the flush.
proof fn lemma_flush_same_hanging(s0: PageTables, s1: PageTables, k: int)
    requires
        s0.wf(),
        s1.wf(),
        0 <= k < 3,
        s1.roots() == s0.roots(),
        s1.region_spec().base_spec() == s0.region_spec().base_spec(),
        s1.region_spec().words().len() == s0.region_spec().words().len(),
        forall|i: int| 0 <= i < 512 ==> #[trigger] s1.pte_at(s0.roots()[k + 1], i) == s0.pte_at(s0.roots()[k + 1], i),
        forall|t: u64, i: int|
            (s0.is_page(t) && !flushed(s0, k + 1, t) && (forall|j: int| 1 <= j < k + 1 ==> t != s0.roots()[j]) && 0 <= i < 512)
                ==> #[trigger] s1.pte_at(t, i) == s0.pte_at(t, i),
    ensures
        forall|q: u64| s0.reclaimed(s0.roots()[k + 1], 0, shadow_slots(), q) == #[trigger] s1.reclaimed(s0.roots()[k + 1], 0, shadow_slots(), q),
{
        let r = s0.roots()[k + 1];
        assert forall|c: u64, m: int|
            s0.levels().contains_key(c) && s0.levels()[c] == 1 && s0.owners().contains_key(c)
                && crate::page_tables::page_owned_by(s0, c, r) && 0 <= m < 512 implies #[trigger] s1.pte_at(c, m)
                == s0.pte_at(c, m) by {
            assert(s0.is_page(c));
            if flushed(s0, k + 1, c) {
                let j = choose|j: int| 1 <= j < k + 1 && #[trigger] s0.reclaimed(s0.roots()[j], 0, shadow_slots(), c);
                let i = choose|i: int| 0 <= i < shadow_slots() && #[trigger] s0.hangs_from(s0.roots()[j], i, c);
                let e = s0.pte_at(s0.roots()[j], i);
                assert(s0.levels().contains_key(s0.roots()[j]));
                assert(s0.levels()[pte_page(e)] == 1);
                if c == pte_page(e) {
                    assert(s0.owners()[c] == slot_addr(s0.roots()[j], i));
                    let i2 = choose|i2: int| 0 <= i2 < 512 && s0.owners()[c] == slot_addr(r, i2);
                    assert(s0.is_page(s0.roots()[j]));
                    assert(s0.is_page(r));
                    lemma_slots_distinct(s0.region_spec(), s0.roots()[j], i, r, i2);
                } else {
                    let d = pte_page(e);
                    let n = choose|n: int| 0 <= n < 512 && pte_is_pointer(#[trigger] s0.pte_at(d, n)) && c == pte_page(s0.pte_at(d, n));
                    assert(s0.levels()[c] == s0.levels()[d] + 1);
                }
            }
            if exists|j: int| 1 <= j < k + 1 && c == s0.roots()[j] {
                let j = choose|j: int| 1 <= j < k + 1 && c == s0.roots()[j];
                assert(s0.levels()[s0.roots()[j]] == 0);
            }
        }
        assert forall|q: u64| s0.reclaimed(r, 0, shadow_slots(), q) == #[trigger] s1.reclaimed(r, 0, shadow_slots(), q) by {
            if s0.reclaimed(r, 0, shadow_slots(), q) {
                let i = choose|i: int| 0 <= i < shadow_slots() && #[trigger] s0.hangs_from(r, i, q);
                let e = s0.pte_at(r, i);
                assert(s1.pte_at(r, i) == e);
                let c = pte_page(e);
                assert(s0.levels().contains_key(r));
                assert(s0.pte_at(r, i) == e);
                assert(s0.owners()[c] == slot_addr(r, i));
                assert(crate::page_tables::page_owned_by(s0, c, r));
                if q != c {
                    let n = choose|n: int| 0 <= n < 512 && pte_is_pointer(#[trigger] s0.pte_at(c, n)) && q == pte_page(s0.pte_at(c, n));
                    assert(s1.pte_at(c, n) == s0.pte_at(c, n));
                }
                assert(s1.hangs_from(r, i, q));
            }
            if s1.reclaimed(r, 0, shadow_slots(), q) {
                let i = choose|i: int| 0 <= i < shadow_slots() && #[trigger] s1.hangs_from(r, i, q);
                let e = s0.pte_at(r, i);
                assert(s1.pte_at(r, i) == e);
                let c = pte_page(e);
                assert(s0.levels().contains_key(r));
                assert(s0.pte_at(r, i) == e);
                assert(s0.owners()[c] == slot_addr(r, i));
                assert(crate::page_tables::page_owned_by(s0, c, r));
                if q != c {
                    let n = choose|n: int| 0 <= n < 512 && pte_is_pointer(#[trigger] s1.pte_at(c, n)) && q == pte_page(s1.pte_at(c, n));
                    assert(s1.pte_at(c, n) == s0.pte_at(c, n));
                }
                assert(s0.hangs_from(r, i, q));
            }
        }
}

/// Clearing root `k + 1` carries the flush's bookkeeping one root further.
proof fn lemma_flush_advance(s0: PageTables, s1: PageTables, s2: PageTables, k: int)
    requires
        s0.wf(),
        s1.wf(),
        0 <= k < 3,
        s1.roots() == s0.roots(),
        s1.region_spec().base_spec() == s0.region_spec().base_spec(),
        s1.region_spec().words().len() == s0.region_spec().words().len(),
        forall|i: int| 0 <= i < 512 ==> #[trigger] s1.pte_at(s0.roots()[k + 1], i) == s0.pte_at(s0.roots()[k + 1], i),
        forall|t: u64, i: int|
            (s0.is_page(t) && !flushed(s0, k + 1, t) && (forall|j: int| 1 <= j < k + 1 ==> t != s0.roots()[j]) && 0 <= i < 512)
                ==> #[trigger] s1.pte_at(t, i) == s0.pte_at(t, i),
        forall|q: u64| s0.reclaimed(s0.roots()[k + 1], 0, shadow_slots(), q) == #[trigger] s1.reclaimed(s0.roots()[k + 1], 0, shadow_slots(), q),
        forall|q: u64| #[trigger]
            flushed(s0, k + 1, q) ==> !s1.levels().contains_key(q) && s1.free_pages().contains(q),
        forall|t: u64|
            s0.levels().contains_key(t) && !flushed(s0, k + 1, t) ==> #[trigger] s1.levels().contains_key(t),
        has_suffix(s1.free_pages(), s0.free_pages()),
        PageTables::clear_outcome(s1, s2, s0.roots()[k + 1], 0, 496),
    ensures
        forall|q: u64| #[trigger]
            flushed(s0, k + 2, q) ==> !s2.levels().contains_key(q) && s2.free_pages().contains(q),
        forall|t: u64, i: int|
            (s0.is_page(t) && !flushed(s0, k + 2, t) && (forall|j: int| 1 <= j < k + 2 ==> t != s0.roots()[j]) && 0 <= i < 512)
                ==> #[trigger] s2.pte_at(t, i) == s0.pte_at(t, i),
        forall|t: u64|
            s0.levels().contains_key(t) && !flushed(s0, k + 2, t) ==> #[trigger] s2.levels().contains_key(t),
        has_suffix(s2.free_pages(), s0.free_pages()),
{
        let r = s0.roots()[k + 1];
            lemma_suffix_trans(s2.free_pages(), s1.free_pages(), s0.free_pages());
        assert forall|q: u64| #[trigger] flushed(s0, k + 2, q) implies !s2.levels().contains_key(q)
            && s2.free_pages().contains(q) by {
            let j = choose|j: int| 1 <= j < k + 2 && #[trigger] s0.reclaimed(s0.roots()[j], 0, shadow_slots(), q);
            if j < k + 1 {
                assert(flushed(s0, k + 1, q));
                lemma_suffix_contains(s2.free_pages(), s1.free_pages(), q);
            } else {
                assert(s1.reclaimed(r, 0, shadow_slots(), q));
            }
        }
        assert forall|t: u64, i: int|
            (s0.is_page(t) && !flushed(s0, k + 2, t) && (forall|j: int| 1 <= j < k + 2 ==> t != s0.roots()[j]) && 0 <= i < 512)
            implies #[trigger] s2.pte_at(t, i) == s0.pte_at(t, i) by {
            if flushed(s0, k + 1, t) {
                let j = choose|j: int| 1 <= j < k + 1 && #[trigger] s0.reclaimed(s0.roots()[j], 0, shadow_slots(), t);
                assert(flushed(s0, k + 2, t));
            }
            assert(t != r);
            if s1.reclaimed(r, 0, shadow_slots(), t) {
                assert(s0.reclaimed(r, 0, shadow_slots(), t));
                assert(flushed(s0, k + 2, t));
            }
            assert(s1.pte_at(t, i) == s0.pte_at(t, i));
            assert(s1.is_page(t));
        }
        assert forall|t: u64|
            s0.levels().contains_key(t) && !flushed(s0, k + 2, t) implies #[trigger] s2.levels().contains_key(t) by {
            if flushed(s0, k + 1, t) {
                let j = choose|j: int| 1 <= j < k + 1 && #[trigger] s0.reclaimed(s0.roots()[j], 0, shadow_slots(), t);
                assert(flushed(s0, k + 2, t));
            }
            assert(s1.levels().contains_key(t));
            if s1.reclaimed(r, 0, shadow_slots(), t) {
                assert(s0.reclaimed(r, 0, shadow_slots(), t));
                assert(flushed(s0, k + 2, t));
            }
        }
}

} // verus!
