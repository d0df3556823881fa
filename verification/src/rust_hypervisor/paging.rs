pub mod declarations;
pub mod phys_book;
pub mod key_order;
pub mod virt_book;
pub mod arch_paging;
pub mod arch_paging_access;
pub mod paging_structure;
pub mod book_laws;
pub mod listing;

use vstd::prelude::*;
use vstd::std_specs::btree::{increasing_seq, spec_btree_map_iter};
use vstd::std_specs::iter::IteratorSpec;
use crate::rust_hypervisor::paging::key_order::{walk_keys, lemma_walk_increasing};
use crate::rust_hypervisor::paging::declarations::{
    NumPages, PhysAddress, VirtAddress, NOT_ENOUGH_MEMORY, CANNOT_FIND_ADDRESS, num_pages, pages_for,
    lemma_pages_for_is_ceiling,
};
use crate::rust_hypervisor::hypervisor::RustHypervisor;
use crate::rust_hypervisor::paging::arch_paging_access::ArchPagingAccess;
use crate::rust_hypervisor::paging::book_laws::{
    lemma_place_all_wf, lemma_books_bounds, lemma_keys_below_no_duplicates, lemma_release_one_wf,
    lemma_release_all_wf, lemma_total_insert, lemma_span_positive,
    lemma_release_after_place_all, lemma_place_all_used, lemma_place_all_totals,
    lemma_chapters_reach, lemma_taken_pages, reached_at_last, lemma_release_one_covers, covered, span,
    with_empty_chapters, lemma_place_all_nothing_wanted, lemma_release_all_empty, lemma_total_remove,
    lemma_below_nonneg, lemma_place_all_keeps_others, lemma_pages_at_placed, free_chapters_wf,
    free_chapters_apart, lemma_coalesce_free, lemma_place_all_conserves, lemma_place_fits,
    lemma_walk_fits,
};
use crate::user_space_arch::arch::AcdUserLevel;
use crate::exec::EcdBase;
use crate::rust_hypervisor::paging::phys_book::{
    PhysBook, has_fit, is_first_fit, is_stop_chapter, chapters_for, counts_of, pages_below,
    keys_below, total_pages, addr_limit, lemma_below_step, lemma_below_gap, lemma_below_monotone,
    wanted_after, place_one, place_all, ends_at, is_prev_chapter,
    end_addr, merged_count, coalesced,
    first_fit, lemma_first_fit_unique, lemma_stop_chapter_unique, release_all, pages_at, place_fits,
    walk_fits,
    lemma_pages_at_same,
};

verus! {

/// Finds the lowest-addressed free chapter with at least `num_pages` pages,
/// returned with its page count in the same form as `find_chapters` returns.
fn find_chapter(num_pages: NumPages, phys_book: &PhysBook) -> (r: Result<(Vec<PhysAddress>, Vec<NumPages>), u8>)
    ensures
        r is Ok <==> has_fit(phys_book.free_pages@, num_pages),
        match r {
            Ok((addrs, counts)) => {
                &&& addrs@ == seq![first_fit(phys_book.free_pages@, num_pages)]
                &&& is_first_fit(phys_book.free_pages@, num_pages, addrs@[0])
                &&& counts@ == seq![phys_book.free_pages@[addrs@[0]]]
            },
            Err(e) => e == NOT_ENOUGH_MEMORY,
        },
{
    let free_pages = &phys_book.free_pages;
    let ghost m = free_pages@;
    for (addr, pages) in it: free_pages.iter()
        invariant
            m == free_pages@,
            m == phys_book.free_pages@,
            forall|j: int| 0 <= j < it.index() ==> *it.seq()[j].1 < num_pages,
            increasing_seq(walk_keys(it.seq())),
    {
        if *pages >= num_pages {
            proof {
                let s = it.seq();
                let i = it.index();
                assert(s[i] == (addr, pages));
                assert(m.contains_key(*addr));
                assert(m[*addr] == *pages);
                assert forall|k: usize| m.contains_key(k) && k < *addr implies m[k] < num_pages by {
                    assert(s.contains((&k, &m[k])));
                    let j = choose|j: int| 0 <= j < s.len() && s[j] == (&k, &m[k]);
                    if j > i {
                        lemma_walk_increasing(s, i, j);
                    }
                    assert(j < i);
                }
            }
            let mut page = Vec::new();
            let mut num_pages_vec = Vec::new();
            page.push(*addr);
            num_pages_vec.push(*pages);
            proof {
                lemma_first_fit_unique(m, num_pages, *addr);
            }
            return Ok((page, num_pages_vec));
        }
    }
    Err(NOT_ENOUGH_MEMORY)
}

/// Gathers free chapters in increasing address order until they hold at
/// least `num_pages` pages.
fn find_chapters(num_pages: NumPages, phys_book: &PhysBook) -> (r: Result<(Vec<PhysAddress>, Vec<NumPages>), u8>)
    requires
        walk_fits(phys_book.free_pages@, num_pages),
    ensures
        r is Ok <==> total_pages(phys_book.free_pages@) >= num_pages,
        match r {
            Ok((addrs, counts)) => {
                &&& addrs@ == chapters_for(phys_book.free_pages@, num_pages)
                &&& counts@ == counts_of(phys_book.free_pages@, addrs@)
            },
            Err(e) => e == NOT_ENOUGH_MEMORY,
        },
{
    let free_pages = &phys_book.free_pages;
    let ghost m = free_pages@;
    let mut pages: Vec<PhysAddress> = Vec::new();
    let mut num_pages_chap: Vec<NumPages> = Vec::new();
    let mut chapter_size: usize = 0;
    let ghost mut bound: int = 0;
    let ghost mut idx: int = 0;
    let ghost walk = spec_btree_map_iter(free_pages).remaining();
    proof {
        lemma_below_monotone(m, 0, addr_limit());
    }
    for (addr, num_free_pages) in it: free_pages.iter()
        invariant
            it.seq() == walk,
            idx == it.index(),
            forall|k: usize| #[trigger] m.contains_key(k) ==> walk.contains((&k, &m[k])),
            m == free_pages@,
            m == phys_book.free_pages@,
            walk_fits(m, num_pages),
            increasing_seq(walk_keys(it.seq())),
            bound == if it.index() == 0 { 0 } else { *it.seq()[it.index() - 1].0 + 1 },
            0 <= bound <= addr_limit(),
            pages@ == keys_below(m, bound),
            num_pages_chap@ == counts_of(m, pages@),
            chapter_size == pages_below(m, bound),
            forall|j: int| 0 <= j < it.index() ==> pages_below(m, *it.seq()[j].0 + 1) < num_pages,
    {
        proof {
            let s = it.seq();
            let i = it.index();
            assert(s[i] == (addr, num_free_pages));
            assert forall|k: usize| m.contains_key(k) implies !(bound <= k < *addr) by {
                assert(s.contains((&k, &m[k])));
                let j = choose|j: int| 0 <= j < s.len() && s[j] == (&k, &m[k]);
                if j < i {
                    if j < i - 1 {
                        lemma_walk_increasing(s, j, i - 1);
                    }
                } else if j > i {
                    lemma_walk_increasing(s, i, j);
                }
            }
            if i > 0 {
                lemma_walk_increasing(s, i - 1, i);
            }
            lemma_below_gap(m, bound, *addr as int);
            lemma_below_step(m, *addr as int);
            lemma_below_monotone(m, *addr + 1, addr_limit());
        }
        pages.push(*addr);
        num_pages_chap.push(*num_free_pages);
        chapter_size += *num_free_pages;
        proof {
            bound = *addr + 1;
            idx = idx + 1;
            assert(num_pages_chap@ == counts_of(m, pages@));
        }
        if chapter_size >= num_pages {
            proof {
                let s = it.seq();
                let i = it.index();
                assert(is_stop_chapter(m, num_pages, *addr)) by {
                    assert forall|j: usize| m.contains_key(j) && j < *addr implies pages_below(m, j + 1) < num_pages by {
                        assert(s.contains((&j, &m[j])));
                        let t = choose|t: int| 0 <= t < s.len() && s[t] == (&j, &m[j]);
                        if t >= i {
                            if t > i {
                                lemma_walk_increasing(s, i, t);
                            }
                        }
                    }
                }
                let k = choose|k: usize| is_stop_chapter(m, num_pages, k);
                lemma_stop_chapter_unique(m, num_pages, k, *addr);
                lemma_below_monotone(m, *addr + 1, addr_limit());
            }
            return Ok((pages, num_pages_chap));
        }
    }
    proof {
        let s = walk;
        assert(idx == s.len());
        assert forall|k: usize| m.contains_key(k) implies !(bound <= k < addr_limit()) by {
            assert(s.contains((&k, &m[k])));
            let j = choose|j: int| 0 <= j < s.len() && s[j] == (&k, &m[k]);
            if j < s.len() - 1 {
                lemma_walk_increasing(s, j, s.len() - 1);
            }
        }
        lemma_below_gap(m, bound, addr_limit());
        assert forall|k: usize| !is_stop_chapter(m, num_pages, k) by {
            if m.contains_key(k) {
                assert(s.contains((&k, &m[k])));
                let j = choose|j: int| 0 <= j < s.len() && s[j] == (&k, &m[k]);
                assert(pages_below(m, *s[j].0 + 1) < num_pages);
            }
        }
    }
    if chapter_size >= num_pages {
        Ok((pages, num_pages_chap))
    } else {
        Err(NOT_ENOUGH_MEMORY)
    }
}

/// Places the chapters in the physical book: each leaves the free pages and
/// is marked used, split where it holds more pages than are still wanted.
pub fn place_chapters(
    chapters: &Vec<PhysAddress>,
    num_pages: &Vec<NumPages>,
    num_pages_needed: NumPages,
    phys_book: &mut PhysBook,
    page_size: usize,
)
    requires
        chapters@.len() == num_pages@.len(),
        place_fits(chapters@, num_pages@, num_pages_needed as int, page_size as int),
    ensures
        (final(phys_book).free_pages@, final(phys_book).used_pages@) == place_all(
            old(phys_book).free_pages@,
            old(phys_book).used_pages@,
            chapters@,
            num_pages@,
            num_pages_needed as int,
            page_size as int,
        ),
        final(phys_book).mem_start == old(phys_book).mem_start,
        final(phys_book).num_total_pages == old(phys_book).num_total_pages,
        final(phys_book).flags == old(phys_book).flags,
{
    let ghost target = place_all(
        phys_book.free_pages@,
        phys_book.used_pages@,
        chapters@,
        num_pages@,
        num_pages_needed as int,
        page_size as int,
    );
    let ghost old_book = *phys_book;
    let mut curr_num_pages_needed = num_pages_needed;
    let num_chapters = chapters.len();
    proof {
        assert(chapters@.skip(0) == chapters@);
        assert(num_pages@.skip(0) == num_pages@);
    }
    for i in 0..num_chapters
        invariant
            num_chapters == chapters@.len(),
            chapters@.len() == num_pages@.len(),
            place_fits(
                chapters@.skip(i as int),
                num_pages@.skip(i as int),
                curr_num_pages_needed as int,
                page_size as int,
            ),
            place_all(
                phys_book.free_pages@,
                phys_book.used_pages@,
                chapters@.skip(i as int),
                num_pages@.skip(i as int),
                curr_num_pages_needed as int,
                page_size as int,
            ) == target,
            phys_book.mem_start == old_book.mem_start,
            phys_book.num_total_pages == old_book.num_total_pages,
            phys_book.flags == old_book.flags,
    {
        let ghost before = (phys_book.free_pages@, phys_book.used_pages@);
        let ghost wanted = curr_num_pages_needed as int;
        proof {
            let cs = chapters@.skip(i as int);
            let ns = num_pages@.skip(i as int);
            assert(cs[0] == chapters@[i as int] && ns[0] == num_pages@[i as int]);
            assert(cs.drop_first() == chapters@.skip(i + 1));
            assert(ns.drop_first() == num_pages@.skip(i + 1));
        }
        let num_pages_chap = num_pages[i];
        phys_book.free_pages.remove(&chapters[i]);
        if num_pages_chap > curr_num_pages_needed {
            // the request is met inside this chapter: split it
            let new_addr = chapters[i] + curr_num_pages_needed * page_size;
            phys_book.free_pages.insert(new_addr, num_pages_chap - curr_num_pages_needed);
            phys_book.used_pages.insert(chapters[i], curr_num_pages_needed);
            curr_num_pages_needed = 0;
        } else {
            // all of this chapter is needed
            phys_book.used_pages.insert(chapters[i], num_pages_chap);
            curr_num_pages_needed -= num_pages_chap;
        }
        proof {
            let cs = chapters@.skip(i as int);
            let ns = num_pages@.skip(i as int);
            assert(cs[0] == chapters@[i as int]);
            assert(ns[0] == num_pages@[i as int]);
            assert(cs.drop_first() == chapters@.skip(i + 1));
            assert(ns.drop_first() == num_pages@.skip(i + 1));
            assert(curr_num_pages_needed == wanted_after(ns[0] as int, wanted));
            assert((phys_book.free_pages@, phys_book.used_pages@) == place_one(
                before.0,
                before.1,
                cs[0],
                ns[0],
                wanted,
                page_size as int,
            ));
        }
    }
    proof {
        assert(chapters@.skip(num_chapters as int).len() == 0);
    }
}

/// Frees `num_pages` pages at `phys_addr`: they become a free chapter, merged
/// with the free chapter that ends where they start (the lowest-addressed one,
/// if several do) and with the free chapter that starts where they end.
pub fn coalesce(phys_addr: &PhysAddress, num_pages: NumPages, phys_book: &mut PhysBook, page_size: usize)
    requires
        end_addr(*phys_addr as int, num_pages as int, page_size as int) <= usize::MAX,
        forall|k: usize| #[trigger] old(phys_book).free_pages@.contains_key(k)
            ==> k + old(phys_book).free_pages@[k] * page_size <= usize::MAX,
        merged_count(old(phys_book).free_pages@, *phys_addr, num_pages, page_size as int) <= usize::MAX,
    ensures
        final(phys_book).free_pages@ == coalesced(old(phys_book).free_pages@, *phys_addr, num_pages, page_size as int),
        final(phys_book).used_pages@ == old(phys_book).used_pages@,
        final(phys_book).mem_start == old(phys_book).mem_start,
        final(phys_book).num_total_pages == old(phys_book).num_total_pages,
        final(phys_book).flags == old(phys_book).flags,
{
    let ghost m = phys_book.free_pages@;
    let ghost p = *phys_addr as int;
    let ghost ps = page_size as int;
    let mut is_prev_free: bool = false;
    let mut is_next_free: bool = true;
    let mut new_num_pages: usize = num_pages;
    let mut next_page_size: usize = 0;

    let next_page_addr = phys_addr + (num_pages * page_size);
    let next_page_size_opt = phys_book.free_pages.get(&next_page_addr);
    if next_page_size_opt.is_none() {
        is_next_free = false;
    } else {
        next_page_size = *next_page_size_opt.unwrap();
    }

    let mut curr_addr: PhysAddress = *phys_addr;
    // Walk the free chapters in increasing address order; the first one that
    // ends where the freed pages start is the one to merge with.
    let free_pages = &phys_book.free_pages;
    let ghost walk = spec_btree_map_iter(free_pages).remaining();
    let ghost mut idx: int = 0;
    for (addr, num_pages) in it: free_pages.iter()
        invariant
            it.seq() == walk,
            idx == it.index(),
            m == free_pages@,
            ps == page_size,
            p == *phys_addr,
            forall|k: usize| #[trigger] m.contains_key(k) ==> k + m[k] * ps <= usize::MAX,
            forall|k: usize| #[trigger] m.contains_key(k) ==> walk.contains((&k, &m[k])),
            increasing_seq(walk_keys(it.seq())),
            is_prev_free ==> is_prev_chapter(m, ps, p, curr_addr),
            !is_prev_free ==> forall|j: int| 0 <= j < it.index() ==> !ends_at(m, ps, *it.seq()[j].0, p),
    {
        proof {
            assert(walk[idx] == (addr, num_pages));
            assert(m.contains_key(*addr) && m[*addr] == *num_pages);
        }
        if !is_prev_free && *addr + (*num_pages * page_size) == *phys_addr {
            is_prev_free = true;
            curr_addr = *addr;
            proof {
                assert forall|j: usize| j < curr_addr implies !ends_at(m, ps, j, p) by {
                    if m.contains_key(j) {
                        let t = choose|t: int| 0 <= t < walk.len() && walk[t] == (&j, &m[j]);
                        if t > idx {
                            lemma_walk_increasing(walk, idx, t);
                        }
                    }
                }
            }
        }
        proof {
            idx = idx + 1;
        }
    }
    proof {
        if !is_prev_free {
            assert forall|k: usize| !ends_at(m, ps, k, p) by {
                if m.contains_key(k) {
                    let j = choose|j: int| 0 <= j < walk.len() && walk[j] == (&k, &m[k]);
                }
            }
        }
    }

    if is_prev_free {
        new_num_pages += *phys_book.free_pages.get(&curr_addr).unwrap();
        phys_book.free_pages.remove(&curr_addr);
    } else {
        curr_addr = *phys_addr;
    }
    if is_next_free {
        new_num_pages += next_page_size;
        phys_book.free_pages.remove(&next_page_addr);
    }

    phys_book.free_pages.insert(curr_addr, new_num_pages);
}


/// Whether an allocation of `needed` pages finds room among the free chapters:
/// a single chapter large enough, or, for a hierarchical allocation, enough
/// free pages in all.
pub open spec fn alloc_fits(free: Map<PhysAddress, NumPages>, needed: NumPages, hierarchical: bool) -> bool {
    if hierarchical {
        total_pages(free) >= needed
    } else {
        has_fit(free, needed)
    }
}

/// The free chapters an allocation of `needed` pages takes: the lowest-addressed
/// one large enough, or, for a hierarchical allocation, the lowest-addressed
/// ones until they hold enough pages.
pub open spec fn alloc_chapters(free: Map<PhysAddress, NumPages>, needed: NumPages, hierarchical: bool) -> Seq<PhysAddress> {
    if hierarchical {
        chapters_for(free, needed)
    } else {
        seq![first_fit(free, needed)]
    }
}

/// The physical mapping after the chapters `cs` are recorded as belonging to a
/// mapping of `needed` pages at `virt`.
pub open spec fn map_chapters(
    phys: Map<PhysAddress, (NumPages, VirtAddress)>,
    cs: Seq<PhysAddress>,
    needed: NumPages,
    virt: VirtAddress,
) -> Map<PhysAddress, (NumPages, VirtAddress)> {
    phys.union_prefer_right(Map::new(|k: PhysAddress| cs.contains(k), |k: PhysAddress| (needed, virt)))
}

/// What an allocation of `size` bytes (from several chapters if
/// `hierarchical`) that returned `r` made of the hypervisor `before`: `after`.
/// It fails with `NOT_ENOUGH_MEMORY`, changing nothing, exactly when no room
/// is found; else the chapters found are placed in the physical book,
/// recorded in the mappings under the architecture's next virtual address,
/// which is returned, and that address moves past the pages. Where no pages
/// are needed, the chapter found is recorded as a used chapter of no pages
/// (it stays free) under a mapping of no pages, and the address stays.
pub open spec fn alloc_done(
    before: RustHypervisor<AcdUserLevel, EcdBase>,
    after: RustHypervisor<AcdUserLevel, EcdBase>,
    size: usize,
    hierarchical: bool,
    r: Result<PhysAddress, u8>,
) -> bool {
    let ps = before.page_size;
    let needed = pages_for(size as int, ps as int) as NumPages;
    let old_paging = before.rust_hypervisor_paging;
    let paging = after.rust_hypervisor_paging;
    let free = old_paging.phys_book.free_pages@;
    let cs = alloc_chapters(free, needed, hierarchical);
    &&& r is Ok <==> alloc_fits(free, needed, hierarchical)
    &&& r is Err ==> r == Err::<PhysAddress, u8>(NOT_ENOUGH_MEMORY) && after == before
    &&& r is Ok ==> {
        let v = r->Ok_0;
        &&& v == old_paging.arch_paging_struct.curr_virt_addr
        &&& paging.arch_paging_struct.curr_virt_addr == v + needed * ps
        &&& (paging.phys_book.free_pages@, paging.phys_book.used_pages@) == place_all(
            free,
            old_paging.phys_book.used_pages@,
            cs,
            counts_of(free, cs),
            needed as int,
            ps as int,
        )
        &&& paging.virt_book.phys_page_mapping@ == map_chapters(
            old_paging.virt_book.phys_page_mapping@,
            cs,
            needed,
            v,
        )
        &&& paging.virt_book.virt_page_mapping@.dom()
            == old_paging.virt_book.virt_page_mapping@.dom().insert(v)
        &&& paging.virt_book.virt_page_mapping@[v].0 == needed
        &&& paging.virt_book.virt_page_mapping@[v].1@ == cs
        &&& forall|w: VirtAddress|
            #![trigger paging.virt_book.virt_page_mapping@[w]]
            old_paging.virt_book.virt_page_mapping@.contains_key(w) && w != v
                ==> paging.virt_book.virt_page_mapping@[w]
                == old_paging.virt_book.virt_page_mapping@[w]
        &&& paging.phys_book.mem_start == old_paging.phys_book.mem_start
        &&& paging.phys_book.num_total_pages == old_paging.phys_book.num_total_pages
        &&& paging.phys_book.flags == old_paging.phys_book.flags
        &&& paging.virt_book.flags == old_paging.virt_book.flags
        &&& paging.arch_paging_struct.page_size == old_paging.arch_paging_struct.page_size
        &&& paging.arch_paging_struct.root_table == old_paging.arch_paging_struct.root_table
        &&& paging.arch_paging_struct.hv_mem_start == old_paging.arch_paging_struct.hv_mem_start
        &&& after.page_size == before.page_size
        &&& after.hv_cpu_id == before.hv_cpu_id
        &&& after.rust_hypervisor_header == before.rust_hypervisor_header
    }
}
/// Allocate pages for `size` bytes and map them to a virtual address, which
/// is returned. With `hierarchical` set, the pages may come from several
/// free chapters.
pub fn alloc_pages(hv: &mut RustHypervisor<AcdUserLevel, EcdBase>, size: usize, hierarchical: bool) -> (r: Result<PhysAddress, u8>)
    requires
        old(hv).wf(),
        size + old(hv).page_size <= usize::MAX,
        alloc_fits(
            old(hv).rust_hypervisor_paging.phys_book.free_pages@,
            pages_for(size as int, old(hv).page_size as int) as NumPages,
            hierarchical,
        ) ==> old(hv).rust_hypervisor_paging.arch_paging_struct.curr_virt_addr
            + pages_for(size as int, old(hv).page_size as int) * old(hv).page_size <= usize::MAX,
    ensures
        alloc_done(*old(hv), *final(hv), size, hierarchical, r),
        r is Ok ==> final(hv).rust_hypervisor_paging.phys_book.used_pages@.dom()
            == old(hv).rust_hypervisor_paging.phys_book.used_pages@.dom() + alloc_chapters(
            old(hv).rust_hypervisor_paging.phys_book.free_pages@,
            pages_for(size as int, old(hv).page_size as int) as NumPages,
            hierarchical,
        ).to_set(),
        r is Ok ==> total_pages(final(hv).rust_hypervisor_paging.phys_book.used_pages@)
            == total_pages(old(hv).rust_hypervisor_paging.phys_book.used_pages@)
            + pages_for(size as int, old(hv).page_size as int),
        r is Err || pages_for(size as int, old(hv).page_size as int) > 0 ==> final(hv).wf(),
{
    let page_size = hv.page_size;
    let ghost old_hv = *hv;
    let ghost free = hv.rust_hypervisor_paging.phys_book.free_pages@;
    let ghost used = hv.rust_hypervisor_paging.phys_book.used_pages@;
    let ghost start = hv.rust_hypervisor_paging.phys_book.mem_start as int;
    let ghost total = hv.rust_hypervisor_paging.phys_book.num_total_pages as int;
    proof {
        lemma_books_bounds(free, used, start, total, page_size as int);
    }
    let num_pages_needed = num_pages(size, page_size);
    proof {
        lemma_walk_fits(free, num_pages_needed);
    }
    let found = if hierarchical {
        find_chapters(num_pages_needed, &hv.rust_hypervisor_paging.phys_book)
    } else {
        find_chapter(num_pages_needed, &hv.rust_hypervisor_paging.phys_book)
    };
    let (chapter_addrs, num_pages) = match found {
        Ok(found) => found,
        Err(e) => {
            return Err(e);
        },
    };
    let ghost cs = chapter_addrs@;
    proof {
        assert(cs == alloc_chapters(free, num_pages_needed, hierarchical));
        if num_pages_needed > 0 {
            lemma_alloc_chapters_reach(free, num_pages_needed, hierarchical);
        }
        if hierarchical {
            lemma_keys_below_no_duplicates(free, cs);
        }
        assert(forall|i: int| 0 <= i < cs.len() ==> free.contains_key(#[trigger] cs[i]));
        assert(cs.no_duplicates());
        assert(num_pages@ =~= counts_of(free, cs));
        assert forall|i: int| 0 <= i < cs.len() implies cs[i] + num_pages@[i] * page_size <= usize::MAX by {
            assert(free.contains_key(cs[i]));
        }
        lemma_place_fits(cs, num_pages@, num_pages_needed as int, page_size as int);
    }
    place_chapters(
        &chapter_addrs,
        &num_pages,
        num_pages_needed,
        &mut hv.rust_hypervisor_paging.phys_book,
        page_size,
    );
    let result = hv.rust_hypervisor_paging.arch_paging_struct.create_mapping(&chapter_addrs, num_pages_needed);
    let ghost old_phys = hv.rust_hypervisor_paging.virt_book.phys_page_mapping@;
    if let Ok(virt_addr) = result {
        let n_chapters = chapter_addrs.len();
        let ghost mid = *hv;
        for i in 0..n_chapters
            invariant
                hv.rust_hypervisor_paging.phys_book == mid.rust_hypervisor_paging.phys_book,
                hv.rust_hypervisor_paging.arch_paging_struct == mid.rust_hypervisor_paging.arch_paging_struct,
                hv.rust_hypervisor_header == mid.rust_hypervisor_header,
                hv.page_size == mid.page_size,
                hv.hv_cpu_id == mid.hv_cpu_id,
                n_chapters == chapter_addrs@.len(),
                chapter_addrs@ == cs,
                hv.rust_hypervisor_paging.virt_book.phys_page_mapping@ == map_chapters(
                    old_phys,
                    cs.take(i as int),
                    num_pages_needed,
                    virt_addr,
                ),
                hv.rust_hypervisor_paging.virt_book.virt_page_mapping@ == old_hv.rust_hypervisor_paging.virt_book.virt_page_mapping@,
                hv.rust_hypervisor_paging.virt_book.flags == old_hv.rust_hypervisor_paging.virt_book.flags,
        {
            hv.rust_hypervisor_paging.virt_book.phys_page_mapping.insert(chapter_addrs[i], (num_pages_needed, virt_addr));
            proof {
                assert(cs.take(i + 1) == cs.take(i as int).push(cs[i as int]));
                lemma_map_chapters_push(old_phys, cs.take(i as int), cs[i as int], num_pages_needed, virt_addr);
            }
        }
        proof {
            assert(cs.take(n_chapters as int) == cs);
        }
        hv.rust_hypervisor_paging.virt_book.virt_page_mapping.insert(virt_addr, (num_pages_needed, chapter_addrs));
        proof {
            lemma_place_all_used(free, used, cs, counts_of(free, cs), num_pages_needed as int, page_size as int);
            if num_pages_needed > 0 {
                lemma_alloc_keeps_wf(old_hv, *hv, cs, num_pages_needed, virt_addr);
                lemma_place_all_totals(free, used, start, total, page_size as int, cs, num_pages_needed as int);
                lemma_taken_pages(counts_of(free, cs), num_pages_needed as int);
            } else {
                lemma_place_nothing_wanted(old_hv, cs, hierarchical);
            }
        }
    }
    result
}

/// An allocation of no pages takes distinct free chapters, none of them used,
/// and leaves the free chapters and the used pages' total as they were.
proof fn lemma_place_nothing_wanted(hv: RustHypervisor<AcdUserLevel, EcdBase>, cs: Seq<PhysAddress>, hierarchical: bool)
    requires
        hv.wf(),
        alloc_fits(hv.rust_hypervisor_paging.phys_book.free_pages@, 0, hierarchical),
        cs == alloc_chapters(hv.rust_hypervisor_paging.phys_book.free_pages@, 0, hierarchical),
    ensures
        cs.no_duplicates(),
        forall|i: int| 0 <= i < cs.len() ==> hv.rust_hypervisor_paging.phys_book.free_pages@.contains_key(#[trigger] cs[i]),
        forall|i: int| 0 <= i < cs.len() ==> !hv.rust_hypervisor_paging.phys_book.used_pages@.contains_key(#[trigger] cs[i]),
        ({
            let free = hv.rust_hypervisor_paging.phys_book.free_pages@;
            let used = hv.rust_hypervisor_paging.phys_book.used_pages@;
            let placed = place_all(free, used, cs, counts_of(free, cs), 0, hv.page_size as int);
            &&& placed.0 == free
            &&& placed.1 == with_empty_chapters(used, cs)
            &&& total_pages(placed.1) == total_pages(used)
        }),
{
    let free = hv.rust_hypervisor_paging.phys_book.free_pages@;
    let used = hv.rust_hypervisor_paging.phys_book.used_pages@;
    lemma_alloc_chapters_free(free, 0, hierarchical);
    assert forall|i: int| 0 <= i < cs.len() implies free[#[trigger] cs[i]] > 0
        && !used.contains_key(cs[i]) by {
        assert(free.contains_key(cs[i]));
    }
    lemma_place_all_nothing_wanted(free, used, cs, hv.page_size as int);
}

/// Whether an allocation of `size` bytes (from several chapters if
/// `hierarchical`) finds room in the hypervisor's free chapters.
pub fn alloc_fits_now(hv: &RustHypervisor<AcdUserLevel, EcdBase>, size: usize, hierarchical: bool) -> (r: bool)
    requires
        hv.wf(),
        size + hv.page_size <= usize::MAX,
    ensures
        r == alloc_fits(
            hv.rust_hypervisor_paging.phys_book.free_pages@,
            pages_for(size as int, hv.page_size as int) as NumPages,
            hierarchical,
        ),
{
    let book = &hv.rust_hypervisor_paging.phys_book;
    proof {
        lemma_books_bounds(
            book.free_pages@,
            book.used_pages@,
            book.mem_start as int,
            book.num_total_pages as int,
            hv.page_size as int,
        );
    }
    let needed = num_pages(size, hv.page_size);
    proof {
        lemma_walk_fits(book.free_pages@, needed);
    }
    let found = if hierarchical {
        find_chapters(needed, book)
    } else {
        find_chapter(needed, book)
    };
    found.is_ok()
}

/// Recording one more chapter in the physical mapping.
proof fn lemma_map_chapters_push(
    phys: Map<PhysAddress, (NumPages, VirtAddress)>,
    cs: Seq<PhysAddress>,
    c: PhysAddress,
    needed: NumPages,
    virt: VirtAddress,
)
    ensures
        map_chapters(phys, cs.push(c), needed, virt) == map_chapters(phys, cs, needed, virt).insert(
            c,
            (needed, virt),
        ),
{
    assert forall|k: PhysAddress| cs.push(c).contains(k) <==> (cs.contains(k) || k == c) by {
        if cs.push(c).contains(k) {
            let i = choose|i: int| 0 <= i < cs.push(c).len() && cs.push(c)[i] == k;
            if i < cs.len() {
                assert(cs[i] == k);
            }
        }
        if cs.contains(k) {
            let i = choose|i: int| 0 <= i < cs.len() && cs[i] == k;
            assert(cs.push(c)[i] == k);
        }
        if k == c {
            assert(cs.push(c)[cs.len() as int] == k);
        }
    }
    let a = map_chapters(phys, cs.push(c), needed, virt);
    let b = map_chapters(phys, cs, needed, virt).insert(c, (needed, virt));
    assert forall|k: PhysAddress| a.contains_key(k) <==> b.contains_key(k) by {
        assert(a.dom().contains(k) == (phys.dom().contains(k) || cs.push(c).contains(k)));
        assert(b.dom().contains(k) == (phys.dom().contains(k) || cs.contains(k) || k == c));
    }
    assert forall|k: PhysAddress| a.contains_key(k) implies a[k] == b[k] by {
        if k != c {
            assert(cs.push(c).contains(k) == cs.contains(k));
        } else {
            assert(cs.push(c)[cs.len() as int] == c);
            assert(cs.push(c).contains(k));
        }
    }
    assert(a =~= b);
}

/// An allocation of at least one page keeps a consistent hypervisor consistent.
proof fn lemma_alloc_keeps_wf(
    old_hv: RustHypervisor<AcdUserLevel, EcdBase>,
    hv: RustHypervisor<AcdUserLevel, EcdBase>,
    cs: Seq<PhysAddress>,
    needed: NumPages,
    v: VirtAddress,
)
    requires
        old_hv.wf(),
        needed > 0,
        reached_at_last(counts_of(old_hv.rust_hypervisor_paging.phys_book.free_pages@, cs), needed as int),
        cs.no_duplicates(),
        forall|i: int| 0 <= i < cs.len() ==> old_hv.rust_hypervisor_paging.phys_book.free_pages@.contains_key(#[trigger] cs[i]),
        (hv.rust_hypervisor_paging.phys_book.free_pages@, hv.rust_hypervisor_paging.phys_book.used_pages@) == place_all(
            old_hv.rust_hypervisor_paging.phys_book.free_pages@,
            old_hv.rust_hypervisor_paging.phys_book.used_pages@,
            cs,
            counts_of(old_hv.rust_hypervisor_paging.phys_book.free_pages@, cs),
            needed as int,
            old_hv.page_size as int,
        ),
        hv.rust_hypervisor_paging.phys_book.mem_start == old_hv.rust_hypervisor_paging.phys_book.mem_start,
        hv.rust_hypervisor_paging.phys_book.num_total_pages == old_hv.rust_hypervisor_paging.phys_book.num_total_pages,
        hv.page_size == old_hv.page_size,
        hv.rust_hypervisor_paging.arch_paging_struct.page_size == old_hv.rust_hypervisor_paging.arch_paging_struct.page_size,
        v == old_hv.rust_hypervisor_paging.arch_paging_struct.curr_virt_addr,
        hv.rust_hypervisor_paging.arch_paging_struct.curr_virt_addr == v + needed * hv.page_size,
        hv.rust_hypervisor_paging.virt_book.phys_page_mapping@ == map_chapters(
            old_hv.rust_hypervisor_paging.virt_book.phys_page_mapping@,
            cs,
            needed,
            v,
        ),
        hv.rust_hypervisor_paging.virt_book.virt_page_mapping@.dom()
            == old_hv.rust_hypervisor_paging.virt_book.virt_page_mapping@.dom().insert(v),
        hv.rust_hypervisor_paging.virt_book.virt_page_mapping@[v].0 == needed,
        hv.rust_hypervisor_paging.virt_book.virt_page_mapping@[v].1@ == cs,
        forall|w: VirtAddress|
            #![trigger hv.rust_hypervisor_paging.virt_book.virt_page_mapping@[w]]
            old_hv.rust_hypervisor_paging.virt_book.virt_page_mapping@.contains_key(w) && w != v
                ==> hv.rust_hypervisor_paging.virt_book.virt_page_mapping@[w]
                == old_hv.rust_hypervisor_paging.virt_book.virt_page_mapping@[w],
    ensures
        hv.wf(),
{
    let ob = old_hv.rust_hypervisor_paging.phys_book;
    let nb = hv.rust_hypervisor_paging.phys_book;
    let ps = old_hv.page_size as int;
    let old_virt = old_hv.rust_hypervisor_paging.virt_book.virt_page_mapping@;
    let old_phys = old_hv.rust_hypervisor_paging.virt_book.phys_page_mapping@;
    let virt = hv.rust_hypervisor_paging.virt_book.virt_page_mapping@;
    let phys = hv.rust_hypervisor_paging.virt_book.phys_page_mapping@;
    lemma_place_all_wf(
        ob.free_pages@,
        ob.used_pages@,
        ob.mem_start as int,
        ob.num_total_pages as int,
        ps,
        cs,
        needed as int,
    );
    assert(nb.wf(ps));
    crate::rust_hypervisor::paging::book_laws::lemma_span_positive(needed as int, ps);
    // The allocated chapters were free, so no mapping knew them.
    assert forall|k: PhysAddress| cs.contains(k) implies !old_phys.contains_key(k) by {
        let i = choose|i: int| 0 <= i < cs.len() && cs[i] == k;
        assert(ob.free_pages@.contains_key(cs[i]));
        assert(!ob.used_pages@.contains_key(k));
    }
    assert forall|p: PhysAddress| #[trigger] nb.used_pages@.contains_key(p) <==> phys.contains_key(p) by {
        assert(nb.used_pages@.dom().contains(p) == (ob.used_pages@.dom().contains(p) || cs.to_set().contains(p)));
    }
    assert forall|p: PhysAddress| #[trigger] phys.contains_key(p) implies {
        &&& virt.contains_key(phys[p].1)
        &&& virt[phys[p].1].1@.contains(p)
        &&& virt[phys[p].1].0 == phys[p].0
    } by {
        if !cs.contains(p) {
            let w = old_phys[p].1;
            assert(old_virt.contains_key(w));
            assert(w != v);
            assert(virt[w] == old_virt[w]);
        }
    }
    assert forall|w: VirtAddress| #[trigger] virt.contains_key(w) implies {
        &&& w < hv.rust_hypervisor_paging.arch_paging_struct.curr_virt_addr
        &&& virt[w].0 > 0
        &&& w + virt[w].0 * hv.page_size <= hv.rust_hypervisor_paging.arch_paging_struct.curr_virt_addr
        &&& virt[w].1@.no_duplicates()
        &&& pages_at(hv.rust_hypervisor_paging.phys_book.used_pages@, virt[w].1@) == virt[w].0
        &&& forall|i: int|
            0 <= i < virt[w].1@.len() ==> phys.contains_key(#[trigger] virt[w].1@[i])
                && phys[virt[w].1@[i]].1 == w
    } by {
        if w == v {
            assert forall|i: int| 0 <= i < virt[w].1@.len() implies phys.contains_key(#[trigger] virt[w].1@[i])
                && phys[virt[w].1@[i]].1 == w by {
                assert(cs.contains(cs[i]));
            }
            lemma_pages_at_placed(ob.free_pages@, ob.used_pages@, cs, counts_of(ob.free_pages@, cs), needed as int, ps);
            lemma_taken_pages(counts_of(ob.free_pages@, cs), needed as int);
        } else {
            assert(old_virt.contains_key(w));
            assert(virt[w] == old_virt[w]);
            let aw = old_virt[w].1@;
            assert forall|i: int| 0 <= i < aw.len() implies nb.used_pages@[#[trigger] aw[i]] == ob.used_pages@[aw[i]] by {
                assert(old_phys.contains_key(aw[i]));
                assert(ob.used_pages@.contains_key(aw[i]));
                assert(!cs.contains(aw[i])) by {
                    if cs.contains(aw[i]) {
                        let j = choose|j: int| 0 <= j < cs.len() && cs[j] == aw[i];
                        assert(ob.free_pages@.contains_key(cs[j]));
                    }
                }
                lemma_place_all_keeps_others(
                    ob.free_pages@,
                    ob.used_pages@,
                    cs,
                    counts_of(ob.free_pages@, cs),
                    needed as int,
                    ps,
                    aw[i],
                );
            }
            lemma_pages_at_same(nb.used_pages@, ob.used_pages@, aw);
            assert forall|i: int| 0 <= i < virt[w].1@.len() implies phys.contains_key(#[trigger] virt[w].1@[i])
                && phys[virt[w].1@[i]].1 == w by {
                let p = old_virt[w].1@[i];
                assert(old_phys.contains_key(p));
                assert(ob.used_pages@.contains_key(p));
                if cs.contains(p) {
                    let j = choose|j: int| 0 <= j < cs.len() && cs[j] == p;
                    assert(ob.free_pages@.contains_key(cs[j]));
                }
            }
        }
    }
}


/// What freeing the mapping at `virt_addr` that returned `r` made of the
/// hypervisor `before`: `after`. It fails with `CANNOT_FIND_ADDRESS`, changing
/// nothing, exactly when no mapping is at `virt_addr`; else each chapter of the
/// mapping is freed in order, merged with its free neighbours, and the mapping
/// and its chapters are forgotten.
pub open spec fn free_done(
    before: RustHypervisor<AcdUserLevel, EcdBase>,
    after: RustHypervisor<AcdUserLevel, EcdBase>,
    virt_addr: VirtAddress,
    r: Result<(), u8>,
) -> bool {
    let ps = before.page_size;
    let old_paging = before.rust_hypervisor_paging;
    let paging = after.rust_hypervisor_paging;
    let old_virt = old_paging.virt_book.virt_page_mapping@;
    &&& r is Ok <==> old_virt.contains_key(virt_addr)
    &&& r is Err ==> r == Err::<(), u8>(CANNOT_FIND_ADDRESS) && after == before
    &&& r is Ok ==> {
        let addrs = old_virt[virt_addr].1@;
        &&& (paging.phys_book.free_pages@, paging.phys_book.used_pages@) == release_all(
            old_paging.phys_book.free_pages@,
            old_paging.phys_book.used_pages@,
            addrs,
            ps as int,
        )
        &&& paging.virt_book.phys_page_mapping@
            == old_paging.virt_book.phys_page_mapping@.remove_keys(addrs.to_set())
        &&& paging.virt_book.virt_page_mapping@ == old_virt.remove(virt_addr)
        &&& paging.phys_book.mem_start == old_paging.phys_book.mem_start
        &&& paging.phys_book.num_total_pages == old_paging.phys_book.num_total_pages
        &&& paging.phys_book.flags == old_paging.phys_book.flags
        &&& paging.virt_book.flags == old_paging.virt_book.flags
        &&& paging.arch_paging_struct == old_paging.arch_paging_struct
        &&& after.page_size == before.page_size
        &&& after.hv_cpu_id == before.hv_cpu_id
        &&& after.rust_hypervisor_header == before.rust_hypervisor_header
    }
}

/// Free the pages mapped at `virt_addr`: each of its chapters is freed and
/// merged with its free neighbours, and the mapping is forgotten.
pub fn free(hv: &mut RustHypervisor<AcdUserLevel, EcdBase>, virt_addr: VirtAddress) -> (r: Result<(), u8>)
    requires
        old(hv).wf(),
    ensures
        free_done(*old(hv), *final(hv), virt_addr, r),
        r is Ok ==> final(hv).rust_hypervisor_paging.phys_book.used_pages@
            == old(hv).rust_hypervisor_paging.phys_book.used_pages@.remove_keys(
            old(hv).rust_hypervisor_paging.virt_book.virt_page_mapping@[virt_addr].1@.to_set(),
        ),
        final(hv).wf(),
{
    let page_size = hv.page_size;
    let ghost old_hv = *hv;
    let ghost ps = page_size as int;
    let ghost start = hv.rust_hypervisor_paging.phys_book.mem_start as int;
    let ghost total = hv.rust_hypervisor_paging.phys_book.num_total_pages as int;

    // check if the virtual address is valid
    let phys_addrs = match hv.rust_hypervisor_paging.virt_book.virt_page_mapping.get(&virt_addr) {
        None => {
            return Err(CANNOT_FIND_ADDRESS);
        },
        Some(entry) => entry.1.clone(),
    };
    let ghost addrs = phys_addrs@;
    proof {
        assert(addrs =~= old_hv.rust_hypervisor_paging.virt_book.virt_page_mapping@[virt_addr].1@);
    }

    let n_addrs = phys_addrs.len();
    proof {
        assert(addrs.skip(0) == addrs);
        assert(addrs.take(0).to_set() =~= Set::<PhysAddress>::empty());
        assert(old_hv.rust_hypervisor_paging.virt_book.phys_page_mapping@.remove_keys(Set::<PhysAddress>::empty())
            =~= old_hv.rust_hypervisor_paging.virt_book.phys_page_mapping@);
    }
    for i in 0..n_addrs
        invariant
            n_addrs == addrs.len(),
            start == old_hv.rust_hypervisor_paging.phys_book.mem_start as int,
            total == old_hv.rust_hypervisor_paging.phys_book.num_total_pages as int,
            phys_addrs@ == addrs,
            addrs == old_hv.rust_hypervisor_paging.virt_book.virt_page_mapping@[virt_addr].1@,
            old_hv.wf(),
            old_hv.rust_hypervisor_paging.virt_book.virt_page_mapping@.contains_key(virt_addr),
            page_size == old_hv.page_size,
            ps == page_size,
            hv.rust_hypervisor_paging.phys_book.wf(ps),
            hv.rust_hypervisor_paging.phys_book.mem_start == old_hv.rust_hypervisor_paging.phys_book.mem_start,
            hv.rust_hypervisor_paging.phys_book.num_total_pages == old_hv.rust_hypervisor_paging.phys_book.num_total_pages,
            hv.rust_hypervisor_paging.phys_book.flags == old_hv.rust_hypervisor_paging.phys_book.flags,
            release_all(
                hv.rust_hypervisor_paging.phys_book.free_pages@,
                hv.rust_hypervisor_paging.phys_book.used_pages@,
                addrs.skip(i as int),
                ps,
            ) == release_all(
                old_hv.rust_hypervisor_paging.phys_book.free_pages@,
                old_hv.rust_hypervisor_paging.phys_book.used_pages@,
                addrs,
                ps,
            ),
            forall|j: int| i <= j < addrs.len() ==> hv.rust_hypervisor_paging.phys_book.used_pages@.contains_key(#[trigger] addrs[j]),
            hv.rust_hypervisor_paging.virt_book.phys_page_mapping@
                == old_hv.rust_hypervisor_paging.virt_book.phys_page_mapping@.remove_keys(addrs.take(i as int).to_set()),
            hv.rust_hypervisor_paging.virt_book.virt_page_mapping@ == old_hv.rust_hypervisor_paging.virt_book.virt_page_mapping@,
            hv.rust_hypervisor_paging.virt_book.flags == old_hv.rust_hypervisor_paging.virt_book.flags,
            hv.rust_hypervisor_paging.arch_paging_struct == old_hv.rust_hypervisor_paging.arch_paging_struct,
            hv.rust_hypervisor_header == old_hv.rust_hypervisor_header,
            hv.page_size == old_hv.page_size,
            hv.hv_cpu_id == old_hv.hv_cpu_id,
    {
        let phys_addr = phys_addrs[i];
        let num_pages_opt = hv.rust_hypervisor_paging.phys_book.used_pages.get(&phys_addr);
        if num_pages_opt.is_none() {
            return Err(CANNOT_FIND_ADDRESS);
        }
        let num_pages: usize = *num_pages_opt.unwrap();
        let ghost before = hv.rust_hypervisor_paging.phys_book;
        proof {
            lemma_release_one_wf(
                before.free_pages@,
                before.used_pages@,
                start,
                total,
                ps,
                phys_addr,
            );
        }
        hv.rust_hypervisor_paging.phys_book.used_pages.remove(&phys_addr);
        hv.rust_hypervisor_paging.virt_book.phys_page_mapping.remove(&phys_addr);
        coalesce(&phys_addr, num_pages, &mut hv.rust_hypervisor_paging.phys_book, page_size);
        proof {
            let rest = addrs.skip(i as int);
            assert(rest[0] == phys_addr);
            assert(rest.drop_first() == addrs.skip(i + 1));
            assert forall|j: int| i + 1 <= j < addrs.len() implies hv.rust_hypervisor_paging.phys_book.used_pages@.contains_key(
                #[trigger] addrs[j],
            ) by {
                assert(addrs[j] != addrs[i as int]);
            }
            assert(addrs.take(i + 1).to_set() == addrs.take(i as int).to_set().insert(phys_addr)) by {
                assert(addrs.take(i + 1) == addrs.take(i as int).push(phys_addr));
                addrs.take(i as int).lemma_push_to_set_commute(phys_addr);
            }
            assert(hv.rust_hypervisor_paging.virt_book.phys_page_mapping@
                =~= old_hv.rust_hypervisor_paging.virt_book.phys_page_mapping@.remove_keys(addrs.take(i + 1).to_set()));
        }
    }

    hv.rust_hypervisor_paging.virt_book.virt_page_mapping.remove(&virt_addr);
    proof {
        lemma_release_all_wf(
            old_hv.rust_hypervisor_paging.phys_book.free_pages@,
            old_hv.rust_hypervisor_paging.phys_book.used_pages@,
            start,
            total,
            ps,
            addrs,
        );
        assert(addrs.take(n_addrs as int) == addrs);
        assert(addrs.skip(n_addrs as int).len() == 0);
        lemma_free_keeps_wf(old_hv, *hv, virt_addr);
    }
    Ok(())
}

/// Freeing a mapping keeps a consistent hypervisor consistent.
proof fn lemma_free_keeps_wf(
    old_hv: RustHypervisor<AcdUserLevel, EcdBase>,
    hv: RustHypervisor<AcdUserLevel, EcdBase>,
    v: VirtAddress,
)
    requires
        old_hv.wf(),
        old_hv.rust_hypervisor_paging.virt_book.virt_page_mapping@.contains_key(v),
        ({
            let addrs = old_hv.rust_hypervisor_paging.virt_book.virt_page_mapping@[v].1@;
            &&& (hv.rust_hypervisor_paging.phys_book.free_pages@, hv.rust_hypervisor_paging.phys_book.used_pages@) == release_all(
                old_hv.rust_hypervisor_paging.phys_book.free_pages@,
                old_hv.rust_hypervisor_paging.phys_book.used_pages@,
                addrs,
                old_hv.page_size as int,
            )
            &&& hv.rust_hypervisor_paging.virt_book.phys_page_mapping@
                == old_hv.rust_hypervisor_paging.virt_book.phys_page_mapping@.remove_keys(addrs.to_set())
        }),
        hv.rust_hypervisor_paging.virt_book.virt_page_mapping@ == old_hv.rust_hypervisor_paging.virt_book.virt_page_mapping@.remove(v),
        hv.rust_hypervisor_paging.phys_book.mem_start == old_hv.rust_hypervisor_paging.phys_book.mem_start,
        hv.rust_hypervisor_paging.phys_book.num_total_pages == old_hv.rust_hypervisor_paging.phys_book.num_total_pages,
        hv.rust_hypervisor_paging.arch_paging_struct == old_hv.rust_hypervisor_paging.arch_paging_struct,
        hv.page_size == old_hv.page_size,
    ensures
        hv.wf(),
{
    let ob = old_hv.rust_hypervisor_paging.phys_book;
    let ps = old_hv.page_size as int;
    let old_virt = old_hv.rust_hypervisor_paging.virt_book.virt_page_mapping@;
    let old_phys = old_hv.rust_hypervisor_paging.virt_book.phys_page_mapping@;
    let virt = hv.rust_hypervisor_paging.virt_book.virt_page_mapping@;
    let phys = hv.rust_hypervisor_paging.virt_book.phys_page_mapping@;
    let used = hv.rust_hypervisor_paging.phys_book.used_pages@;
    let addrs = old_virt[v].1@;
    assert(forall|i: int| 0 <= i < addrs.len() ==> ob.used_pages@.contains_key(#[trigger] addrs[i]));
    lemma_release_all_wf(
        ob.free_pages@,
        ob.used_pages@,
        ob.mem_start as int,
        ob.num_total_pages as int,
        ps,
        addrs,
    );
    assert(hv.rust_hypervisor_paging.phys_book.wf(ps));
    assert forall|p: PhysAddress| #[trigger] used.contains_key(p) <==> phys.contains_key(p) by {}
    assert forall|p: PhysAddress| #[trigger] phys.contains_key(p) implies {
        &&& virt.contains_key(phys[p].1)
        &&& virt[phys[p].1].1@.contains(p)
        &&& virt[phys[p].1].0 == phys[p].0
    } by {
        let w = old_phys[p].1;
        assert(old_virt.contains_key(w));
        if w == v {
            assert(addrs.to_set().contains(p));
        }
    }
    assert forall|w: VirtAddress| #[trigger] virt.contains_key(w) implies {
        &&& w < hv.rust_hypervisor_paging.arch_paging_struct.curr_virt_addr
        &&& virt[w].0 > 0
        &&& w + virt[w].0 * hv.page_size <= hv.rust_hypervisor_paging.arch_paging_struct.curr_virt_addr
        &&& virt[w].1@.no_duplicates()
        &&& pages_at(hv.rust_hypervisor_paging.phys_book.used_pages@, virt[w].1@) == virt[w].0
        &&& forall|i: int|
            0 <= i < virt[w].1@.len() ==> phys.contains_key(#[trigger] virt[w].1@[i])
                && phys[virt[w].1@[i]].1 == w
    } by {
        assert(old_virt.contains_key(w));
        let aw = old_virt[w].1@;
        assert forall|i: int| 0 <= i < aw.len() implies used[#[trigger] aw[i]] == ob.used_pages@[aw[i]] by {
            let p = aw[i];
            assert(old_phys.contains_key(p) && old_phys[p].1 == w);
            if addrs.to_set().contains(p) {
                let j = choose|j: int| 0 <= j < addrs.len() && addrs[j] == p;
                assert(old_phys[addrs[j]].1 == v);
            }
        }
        lemma_pages_at_same(used, ob.used_pages@, aw);
        assert forall|i: int| 0 <= i < virt[w].1@.len() implies phys.contains_key(#[trigger] virt[w].1@[i])
            && phys[virt[w].1@[i]].1 == w by {
            let p = old_virt[w].1@[i];
            assert(old_phys.contains_key(p) && old_phys[p].1 == w);
            if addrs.to_set().contains(p) {
                let j = choose|j: int| 0 <= j < addrs.len() && addrs[j] == p;
                assert(old_phys[addrs[j]].1 == v);
            }
        }
    }
}


/// The books of the hypervisor hold nothing yet.
pub open spec fn books_empty(hv: RustHypervisor<AcdUserLevel, EcdBase>) -> bool {
    let paging = hv.rust_hypervisor_paging;
    &&& paging.phys_book.free_pages@.is_empty()
    &&& paging.phys_book.used_pages@.is_empty()
    &&& paging.virt_book.virt_page_mapping@.is_empty()
    &&& paging.virt_book.phys_page_mapping@.is_empty()
}

/// An empty map holds no pages.
proof fn lemma_below_empty(b: int)
    ensures
        pages_below(Map::<usize, usize>::empty(), b) == 0,
    decreases b,
{
    if b > 0 {
        lemma_below_empty(b - 1);
    }
}

/// Initialize the paging system: the whole memory the architecture gives the
/// hypervisor becomes one free chapter.
pub fn paging_init(hv: &mut RustHypervisor<AcdUserLevel, EcdBase>) -> (r: Result<(), u8>)
    requires
        old(hv).page_size > 0,
    ensures
        ({
            let ps = old(hv).page_size;
            let old_paging = old(hv).rust_hypervisor_paging;
            let paging = final(hv).rust_hypervisor_paging;
            let start = old_paging.arch_paging_struct.hv_mem_start;
            let total = (crate::user_space_arch::arch_paging::USER_HV_MEM_SIZE / ps) as NumPages;
            &&& r == Ok::<(), u8>(())
            &&& paging.arch_paging_struct.page_size == ps
            &&& paging.arch_paging_struct.root_table == old_paging.arch_paging_struct.root_table
            &&& paging.arch_paging_struct.hv_mem_start == start
            &&& paging.arch_paging_struct.curr_virt_addr == old_paging.arch_paging_struct.curr_virt_addr
            &&& paging.phys_book.num_total_pages == total
            &&& paging.phys_book.mem_start == start
            &&& paging.phys_book.free_pages@ == old_paging.phys_book.free_pages@.insert(start, total)
            &&& paging.phys_book.used_pages@ == old_paging.phys_book.used_pages@
            &&& paging.phys_book.flags == 0
            &&& paging.virt_book == old_paging.virt_book
            &&& final(hv).page_size == ps
            &&& final(hv).hv_cpu_id == old(hv).hv_cpu_id
            &&& final(hv).rust_hypervisor_header == old(hv).rust_hypervisor_header
            &&& books_empty(*old(hv)) && total > 0 && start + total * ps <= usize::MAX ==> final(hv).wf()
        }),
{
    let page_size: usize = hv.page_size;
    hv.rust_hypervisor_paging.arch_paging_struct.page_size = page_size;

    let mem_size: usize = hv.rust_hypervisor_paging.arch_paging_struct.get_hv_mem_size();
    let num_total_pages: NumPages = mem_size / page_size;
    hv.rust_hypervisor_paging.phys_book.num_total_pages = num_total_pages;

    let start_addr = hv.rust_hypervisor_paging.arch_paging_struct.get_hv_mem_start();
    hv.rust_hypervisor_paging.phys_book.mem_start = start_addr;
    // the whole memory is one free chapter
    hv.rust_hypervisor_paging.phys_book.free_pages.insert(start_addr, num_total_pages);

    // no flags are used at this time
    hv.rust_hypervisor_paging.phys_book.flags = 0;

    let r = hv.rust_hypervisor_paging.arch_paging_struct.arch_paging_init(&mut hv.rust_hypervisor_paging.virt_book);
    proof {
        let ps = page_size as int;
        let free = hv.rust_hypervisor_paging.phys_book.free_pages@;
        let used = hv.rust_hypervisor_paging.phys_book.used_pages@;
        if books_empty(*old(hv)) && num_total_pages > 0 && start_addr + num_total_pages * ps <= usize::MAX {
            lemma_below_empty(addr_limit());
            lemma_total_insert(Map::<usize, usize>::empty(), start_addr, num_total_pages);
            assert(free == Map::<usize, usize>::empty().insert(start_addr, num_total_pages));
            assert(used == Map::<usize, usize>::empty());
            lemma_span_positive(num_total_pages as int, ps);
            assert(hv.rust_hypervisor_paging.phys_book.wf(ps));
        }
    }
    r
}


/// Where some chapter has at least `n` pages, a lowest-addressed one does.
pub proof fn lemma_first_fit_exists(m: Map<PhysAddress, NumPages>, n: NumPages, k: PhysAddress)
    requires
        m.contains_key(k),
        m[k] >= n,
    ensures
        is_first_fit(m, n, first_fit(m, n)),
    decreases k,
{
    if exists|j: PhysAddress| m.contains_key(j) && j < k && m[j] >= n {
        let j = choose|j: PhysAddress| m.contains_key(j) && j < k && m[j] >= n;
        lemma_first_fit_exists(m, n, j);
    } else {
        assert(is_first_fit(m, n, k));
    }
}

/// The chapters an allocation that found room takes are distinct free chapters.
pub proof fn lemma_alloc_chapters_free(m: Map<PhysAddress, NumPages>, needed: NumPages, hierarchical: bool)
    requires
        alloc_fits(m, needed, hierarchical),
    ensures
        alloc_chapters(m, needed, hierarchical).no_duplicates(),
        forall|i: int|
            0 <= i < alloc_chapters(m, needed, hierarchical).len() ==> m.contains_key(
                #[trigger] alloc_chapters(m, needed, hierarchical)[i],
            ),
{
    if hierarchical {
        lemma_keys_below_no_duplicates(m, chapters_for(m, needed));
    } else {
        let k = choose|k: PhysAddress| m.contains_key(k) && m[k] >= needed;
        lemma_first_fit_exists(m, needed, k);
    }
}

/// The chapters an allocation of at least one page takes reach the pages it
/// needs at the last one.
pub proof fn lemma_alloc_chapters_reach(m: Map<PhysAddress, NumPages>, needed: NumPages, hierarchical: bool)
    requires
        alloc_fits(m, needed, hierarchical),
        needed > 0,
    ensures
        reached_at_last(counts_of(m, alloc_chapters(m, needed, hierarchical)), needed as int),
{
    if hierarchical {
        lemma_chapters_reach(m, needed);
    } else {
        let k = choose|k: PhysAddress| m.contains_key(k) && m[k] >= needed;
        lemma_first_fit_exists(m, needed, k);
        let ns = counts_of(m, alloc_chapters(m, needed, hierarchical));
        assert(ns.len() == 1 && ns[0] == m[first_fit(m, needed)]);
    }
}

/// Freeing the address that an allocation returned gives back the
/// hypervisor's books as they were before the allocation: the same
/// free and used chapters and the same mappings. Only the architecture's next
/// virtual address has moved on, past the pages that were mapped.
pub proof fn law_free_undoes_alloc(
    hv0: RustHypervisor<AcdUserLevel, EcdBase>,
    hv1: RustHypervisor<AcdUserLevel, EcdBase>,
    hv2: RustHypervisor<AcdUserLevel, EcdBase>,
    size: usize,
    hierarchical: bool,
    v: VirtAddress,
)
    requires
        hv0.wf(),
        alloc_done(hv0, hv1, size, hierarchical, Ok(v)),
        free_done(hv1, hv2, v, Ok(())),
    ensures
        hv2.rust_hypervisor_paging.phys_book.free_pages@ == hv0.rust_hypervisor_paging.phys_book.free_pages@,
        hv2.rust_hypervisor_paging.phys_book.used_pages@ == hv0.rust_hypervisor_paging.phys_book.used_pages@,
        hv2.rust_hypervisor_paging.virt_book.virt_page_mapping@
            == hv0.rust_hypervisor_paging.virt_book.virt_page_mapping@,
        hv2.rust_hypervisor_paging.virt_book.phys_page_mapping@
            == hv0.rust_hypervisor_paging.virt_book.phys_page_mapping@,
        hv2.rust_hypervisor_paging.arch_paging_struct.curr_virt_addr
            == hv0.rust_hypervisor_paging.arch_paging_struct.curr_virt_addr
            + pages_for(size as int, hv0.page_size as int) * hv0.page_size,
{
    let ps = hv0.page_size as int;
    let needed = pages_for(size as int, ps) as NumPages;
    lemma_pages_for_is_ceiling(size as int, ps);
    assert(needed == pages_for(size as int, ps));
    let b0 = hv0.rust_hypervisor_paging.phys_book;
    let free = b0.free_pages@;
    let used = b0.used_pages@;
    let cs = alloc_chapters(free, needed, hierarchical);
    let virt0 = hv0.rust_hypervisor_paging.virt_book.virt_page_mapping@;
    let phys0 = hv0.rust_hypervisor_paging.virt_book.phys_page_mapping@;
    let virt1 = hv1.rust_hypervisor_paging.virt_book.virt_page_mapping@;
    lemma_alloc_chapters_free(free, needed, hierarchical);
    assert(virt1.contains_key(v));
    assert(virt1[v].1@ == cs);
    if needed == 0 {
        // The chapter was recorded as a used chapter of no pages; freeing it
        // merges nothing and forgets it.
        lemma_place_nothing_wanted(hv0, cs, hierarchical);
        lemma_books_bounds(free, used, b0.mem_start as int, b0.num_total_pages as int, ps);
        lemma_release_all_empty(free, with_empty_chapters(used, cs), cs, ps);
        assert(with_empty_chapters(used, cs).remove_keys(cs.to_set()) =~= used) by {
            assert forall|k: PhysAddress| cs.to_set().contains(k) implies !used.contains_key(k) by {
                let i = choose|i: int| 0 <= i < cs.len() && cs[i] == k;
                assert(free.contains_key(cs[i]));
            }
        }
    } else {
        lemma_alloc_chapters_reach(free, needed, hierarchical);
        lemma_release_after_place_all(
            free,
            used,
            b0.mem_start as int,
            b0.num_total_pages as int,
            ps,
            cs,
            needed as int,
        );
    }
    assert(!virt0.contains_key(v));
    assert(virt1.remove(v) =~= virt0) by {
        assert forall|w: VirtAddress| virt1.remove(v).contains_key(w) implies virt1.remove(v)[w] == virt0[w] by {
            assert(virt0.contains_key(w));
        }
    }
    assert(map_chapters(phys0, cs, needed, v).remove_keys(cs.to_set()) =~= phys0) by {
        assert forall|k: PhysAddress| cs.contains(k) implies !phys0.contains_key(k) by {
            let i = choose|i: int| 0 <= i < cs.len() && cs[i] == k;
            assert(free.contains_key(cs[i]));
            assert(!used.contains_key(k));
        }
    }
}


/// In a consistent hypervisor every page of the memory is either free or in
/// use, never both: the free and used chapters do not overlap, and together
/// they hold exactly the memory's pages.
pub proof fn law_pages_conserved(hv: RustHypervisor<AcdUserLevel, EcdBase>)
    requires
        hv.wf(),
    ensures
        total_pages(hv.rust_hypervisor_paging.phys_book.free_pages@) + total_pages(
            hv.rust_hypervisor_paging.phys_book.used_pages@,
        ) == hv.rust_hypervisor_paging.phys_book.num_total_pages,
        hv.rust_hypervisor_paging.phys_book.free_pages@.dom().disjoint(
            hv.rust_hypervisor_paging.phys_book.used_pages@.dom(),
        ),
        forall|a: PhysAddress, b: PhysAddress|
            #![trigger hv.rust_hypervisor_paging.phys_book.free_pages@.contains_key(a), hv.rust_hypervisor_paging.phys_book.used_pages@.contains_key(b)]
            hv.rust_hypervisor_paging.phys_book.free_pages@.contains_key(a)
                && hv.rust_hypervisor_paging.phys_book.used_pages@.contains_key(b) ==> crate::rust_hypervisor::paging::phys_book::apart(
                a as int,
                hv.rust_hypervisor_paging.phys_book.free_pages@[a] as int,
                b as int,
                hv.rust_hypervisor_paging.phys_book.used_pages@[b] as int,
                hv.page_size as int,
            ),
{
}

/// An allocation that succeeds marks exactly the pages it needs as used,
/// `pages_for(size, page_size)` of them, and takes them from the free pages.
pub proof fn law_alloc_reserves_request(
    hv0: RustHypervisor<AcdUserLevel, EcdBase>,
    hv1: RustHypervisor<AcdUserLevel, EcdBase>,
    size: usize,
    hierarchical: bool,
    v: VirtAddress,
)
    requires
        hv0.wf(),
        alloc_done(hv0, hv1, size, hierarchical, Ok(v)),
    ensures
        total_pages(hv1.rust_hypervisor_paging.phys_book.used_pages@)
            == total_pages(hv0.rust_hypervisor_paging.phys_book.used_pages@)
            + pages_for(size as int, hv0.page_size as int),
        total_pages(hv1.rust_hypervisor_paging.phys_book.free_pages@)
            == total_pages(hv0.rust_hypervisor_paging.phys_book.free_pages@)
            - pages_for(size as int, hv0.page_size as int),
{
    let ps = hv0.page_size as int;
    let needed = pages_for(size as int, ps) as NumPages;
    lemma_pages_for_is_ceiling(size as int, ps);
    if needed > 0 {
        let b0 = hv0.rust_hypervisor_paging.phys_book;
        let free = b0.free_pages@;
        let used = b0.used_pages@;
        let cs = alloc_chapters(free, needed, hierarchical);
        lemma_alloc_chapters_free(free, needed, hierarchical);
        lemma_alloc_chapters_reach(free, needed, hierarchical);
        lemma_place_all_totals(free, used, b0.mem_start as int, b0.num_total_pages as int, ps, cs, needed as int);
        lemma_place_all_wf(free, used, b0.mem_start as int, b0.num_total_pages as int, ps, cs, needed as int);
        lemma_taken_pages(counts_of(free, cs), needed as int);
    } else {
        let cs = alloc_chapters(hv0.rust_hypervisor_paging.phys_book.free_pages@, 0, hierarchical);
        lemma_place_nothing_wanted(hv0, cs, hierarchical);
    }
}

/// Freeing a used chapter of a consistent book merges it into the free
/// chapters: the books stay consistent (in particular the free chapters stay
/// apart from each other and from the used ones, and no two free chapters
/// touch), the free pages grow by exactly the chapter's pages, and the free
/// chapters cover exactly what they covered before together with the
/// chapter's addresses.
pub proof fn law_coalesce_merges(book: PhysBook, p: PhysAddress, page_size: int)
    requires
        book.wf(page_size),
        book.used_pages@.contains_key(p),
    ensures
        ({
            let n = book.used_pages@[p];
            let merged = coalesced(book.free_pages@, p, n, page_size);
            &&& crate::rust_hypervisor::paging::phys_book::books_wf(
                merged,
                book.used_pages@.remove(p),
                book.mem_start as int,
                book.num_total_pages as int,
                page_size,
            )
            &&& total_pages(merged) == total_pages(book.free_pages@) + n
            &&& covered(merged, page_size) == covered(book.free_pages@, page_size) + span(
                p as int,
                n as int,
                page_size,
            )
        }),
{
    lemma_release_one_wf(
        book.free_pages@,
        book.used_pages@,
        book.mem_start as int,
        book.num_total_pages as int,
        page_size,
        p,
    );
    lemma_release_one_covers(
        book.free_pages@,
        book.used_pages@,
        book.mem_start as int,
        book.num_total_pages as int,
        page_size,
        p,
    );
}

/// Placing distinct free chapters of a consistent book, where they reach the
/// wanted pages at the last one, moves exactly the wanted pages from the free
/// pages to the used ones: no page is made or lost, every chapter but the last
/// is used whole, the placed chapters become used, and the books stay
/// consistent.
pub proof fn law_place_moves_wanted_pages(book: PhysBook, cs: Seq<PhysAddress>, wanted: int, page_size: int)
    requires
        book.wf(page_size),
        cs.no_duplicates(),
        forall|i: int| 0 <= i < cs.len() ==> book.free_pages@.contains_key(#[trigger] cs[i]),
        wanted > 0,
        reached_at_last(counts_of(book.free_pages@, cs), wanted),
    ensures
        ({
            let placed = place_all(
                book.free_pages@,
                book.used_pages@,
                cs,
                counts_of(book.free_pages@, cs),
                wanted,
                page_size,
            );
            &&& crate::rust_hypervisor::paging::phys_book::books_wf(
                placed.0,
                placed.1,
                book.mem_start as int,
                book.num_total_pages as int,
                page_size,
            )
            &&& total_pages(placed.1) == total_pages(book.used_pages@) + wanted
            &&& total_pages(placed.0) == total_pages(book.free_pages@) - wanted
            &&& total_pages(placed.0) + total_pages(placed.1) == total_pages(book.free_pages@)
                + total_pages(book.used_pages@)
            &&& placed.1.dom() == book.used_pages@.dom() + cs.to_set()
        }),
{
    let free = book.free_pages@;
    let used = book.used_pages@;
    let start = book.mem_start as int;
    let total = book.num_total_pages as int;
    lemma_place_all_wf(free, used, start, total, page_size, cs, wanted);
    lemma_place_all_totals(free, used, start, total, page_size, cs, wanted);
    lemma_taken_pages(counts_of(free, cs), wanted);
}

/// Where an allocation from a single chapter finds room, a hierarchical
/// allocation of the same size finds room too.
pub proof fn law_hierarchical_fits_where_single_does(
    hv0: RustHypervisor<AcdUserLevel, EcdBase>,
    hv1: RustHypervisor<AcdUserLevel, EcdBase>,
    hv2: RustHypervisor<AcdUserLevel, EcdBase>,
    size: usize,
    r1: Result<PhysAddress, u8>,
    r2: Result<PhysAddress, u8>,
)
    requires
        alloc_done(hv0, hv1, size, false, r1),
        alloc_done(hv0, hv2, size, true, r2),
        r1 is Ok,
    ensures
        r2 is Ok,
{
    let free = hv0.rust_hypervisor_paging.phys_book.free_pages@;
    let needed = pages_for(size as int, hv0.page_size as int) as NumPages;
    lemma_single_fit_fits_all(free, needed);
}

/// A chapter large enough on its own means enough free pages in all.
pub proof fn lemma_single_fit_fits_all(free: Map<PhysAddress, NumPages>, needed: NumPages)
    requires
        alloc_fits(free, needed, false),
    ensures
        alloc_fits(free, needed, true),
{
    let k = choose|k: PhysAddress| free.contains_key(k) && free[k] >= needed;
    lemma_total_remove(free, k);
    lemma_below_nonneg(free.remove(k), addr_limit());
}

/// Merging `n > 0` pages at `p` into free chapters that hold pages, do not
/// overlap and do not touch (whatever the rest of the book), where the pages
/// overlap no free chapter, gives free chapters that again hold pages, do not
/// overlap and do not touch; the free pages grow by exactly `n`; the free
/// chapters cover exactly what they covered before together with the
/// pages' addresses; and the merged chapter's page count fits the machine,
/// so `coalesce` can be called on them.
pub proof fn law_coalesce_merges_free_chapters(book: PhysBook, p: PhysAddress, n: NumPages, page_size: int)
    requires
        free_chapters_wf(book.free_pages@, page_size),
        n > 0,
        p + n * page_size <= usize::MAX,
        forall|k: PhysAddress|
            #[trigger] book.free_pages@.contains_key(k) ==> crate::rust_hypervisor::paging::phys_book::apart(
                k as int,
                book.free_pages@[k] as int,
                p as int,
                n as int,
                page_size,
            ),
    ensures
        merged_count(book.free_pages@, p, n, page_size) <= usize::MAX,
        free_chapters_wf(coalesced(book.free_pages@, p, n, page_size), page_size),
        total_pages(coalesced(book.free_pages@, p, n, page_size)) == total_pages(book.free_pages@) + n,
        covered(coalesced(book.free_pages@, p, n, page_size), page_size) == covered(
            book.free_pages@,
            page_size,
        ) + span(p as int, n as int, page_size),
{
    lemma_coalesce_free(book.free_pages@, p, n, page_size);
}

/// Placing distinct free chapters that are not used, among free chapters
/// that hold pages and do not overlap, neither makes nor loses pages: the free
/// and used pages together stay as many as before, whatever is wanted.
pub proof fn law_place_conserves_pages(book: PhysBook, cs: Seq<PhysAddress>, wanted: NumPages, page_size: int)
    requires
        free_chapters_apart(book.free_pages@, page_size),
        cs.no_duplicates(),
        forall|i: int| 0 <= i < cs.len() ==> book.free_pages@.contains_key(#[trigger] cs[i]),
        forall|i: int| 0 <= i < cs.len() ==> !book.used_pages@.contains_key(#[trigger] cs[i]),
    ensures
        ({
            let placed = place_all(
                book.free_pages@,
                book.used_pages@,
                cs,
                counts_of(book.free_pages@, cs),
                wanted as int,
                page_size,
            );
            total_pages(placed.0) + total_pages(placed.1) == total_pages(book.free_pages@) + total_pages(
                book.used_pages@,
            )
        }),
{
    lemma_place_all_conserves(book.free_pages@, book.used_pages@, cs, wanted as int, page_size);
}

} // verus!
