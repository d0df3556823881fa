use vstd::prelude::*;
use std::collections::BTreeMap;
use crate::rust_hypervisor::paging::declarations::{Address, NumPages};

verus! {

/// The physical book: which chapters (runs of pages) of the hypervisor's
/// memory are free and which are in use.
pub struct PhysBook {
    /// Address of the start of the available memory.
    pub mem_start: Address,
    /// Total number of pages in that memory.
    pub num_total_pages: NumPages,
    /// Free chapters: start address to number of pages.
    pub free_pages: Box<BTreeMap<Address, NumPages>>,
    /// Chapters in use: start address to number of pages.
    pub used_pages: Box<BTreeMap<Address, NumPages>>,
    /// Flags, as needed.
    pub flags: usize,
}

impl PhysBook {
    /// Empty physical bookkeeping: no chapters yet.
    pub fn new() -> (r: PhysBook)
        ensures
            r.mem_start == 0,
            r.num_total_pages == 0,
            r.free_pages@ == Map::<Address, NumPages>::empty(),
            r.used_pages@ == Map::<Address, NumPages>::empty(),
            r.flags == 0,
    {
        PhysBook {
            mem_start: 0,
            num_total_pages: 0,
            free_pages: Box::new(BTreeMap::new()),
            used_pages: Box::new(BTreeMap::new()),
            flags: 0,
        }
    }
}

/// Some chapter of `m` has at least `n` pages.
pub open spec fn has_fit(m: Map<usize, usize>, n: usize) -> bool {
    exists|k: usize| m.contains_key(k) && m[k] >= n
}

/// `a` is the lowest-addressed chapter of `m` with at least `n` pages.
pub open spec fn is_first_fit(m: Map<usize, usize>, n: usize, a: usize) -> bool {
    &&& m.contains_key(a)
    &&& m[a] >= n
    &&& forall|k: usize| m.contains_key(k) && k < a ==> m[k] < n
}


/// Sum of the page counts of the chapters of `m` that start below address `bound`.
pub open spec fn pages_below(m: Map<usize, usize>, bound: int) -> int
    decreases bound,
{
    if bound <= 0 {
        0
    } else {
        pages_below(m, bound - 1) + if m.contains_key((bound - 1) as usize) {
            m[(bound - 1) as usize] as int
        } else {
            0
        }
    }
}

/// The addresses of the chapters of `m` that start below `bound`, in increasing order.
pub open spec fn keys_below(m: Map<usize, usize>, bound: int) -> Seq<usize>
    decreases bound,
{
    if bound <= 0 {
        Seq::empty()
    } else if m.contains_key((bound - 1) as usize) {
        keys_below(m, bound - 1).push((bound - 1) as usize)
    } else {
        keys_below(m, bound - 1)
    }
}

/// One past the highest address.
pub open spec fn addr_limit() -> int {
    usize::MAX as int + 1
}

/// Total number of pages in the chapters of `m`.
pub open spec fn total_pages(m: Map<usize, usize>) -> int {
    pages_below(m, addr_limit())
}

/// The lowest-addressed chapter of `m` with at least `n` pages.
pub open spec fn first_fit(m: Map<usize, usize>, n: usize) -> usize {
    choose|a: usize| is_first_fit(m, n, a)
}

/// `k` is the chapter at which an increasing walk over `m`, adding up page
/// counts, first reaches `n` pages.
pub open spec fn is_stop_chapter(m: Map<usize, usize>, n: usize, k: usize) -> bool {
    &&& m.contains_key(k)
    &&& pages_below(m, k + 1) >= n
    &&& forall|j: usize| m.contains_key(j) && j < k ==> pages_below(m, j + 1) < n
}

/// The chapters that a walk over `m` in increasing address order gathers,
/// stopping at the first chapter where the pages gathered reach `n`.
pub open spec fn chapters_for(m: Map<usize, usize>, n: usize) -> Seq<usize> {
    if exists|k: usize| is_stop_chapter(m, n, k) {
        keys_below(m, (choose|k: usize| is_stop_chapter(m, n, k)) + 1)
    } else {
        keys_below(m, addr_limit())
    }
}

/// The page counts of the chapters `cs` in `m`.
pub open spec fn counts_of(m: Map<usize, usize>, cs: Seq<usize>) -> Seq<usize> {
    cs.map_values(|k: usize| m[k])
}

/// Adding the chapter at `bound` (if any) to what lies below it.
pub proof fn lemma_below_step(m: Map<usize, usize>, bound: int)
    requires
        0 <= bound <= usize::MAX,
    ensures
        pages_below(m, bound + 1) == pages_below(m, bound) + if m.contains_key(bound as usize) {
            m[bound as usize] as int
        } else {
            0
        },
        keys_below(m, bound + 1) == if m.contains_key(bound as usize) {
            keys_below(m, bound).push(bound as usize)
        } else {
            keys_below(m, bound)
        },
{
}

/// Across a range of addresses where `m` has no chapter, nothing is added.
pub proof fn lemma_below_gap(m: Map<usize, usize>, lo: int, hi: int)
    requires
        0 <= lo <= hi <= addr_limit(),
        forall|k: usize| m.contains_key(k) ==> !(lo <= k < hi),
    ensures
        pages_below(m, hi) == pages_below(m, lo),
        keys_below(m, hi) == keys_below(m, lo),
    decreases hi - lo,
{
    if hi > lo {
        lemma_below_gap(m, lo, hi - 1);
        lemma_below_step(m, hi - 1);
    }
}

/// `pages_below` only grows with the bound.
pub proof fn lemma_below_monotone(m: Map<usize, usize>, lo: int, hi: int)
    requires
        lo <= hi,
    ensures
        pages_below(m, lo) <= pages_below(m, hi),
    decreases hi - lo,
{
    if hi > lo {
        lemma_below_monotone(m, lo, hi - 1);
        if hi > 0 {
            assert(pages_below(m, hi) >= pages_below(m, hi - 1));
        }
    }
}

/// `keys_below` lists exactly the chapters below the bound, in increasing order.
pub proof fn lemma_keys_below(m: Map<usize, usize>, bound: int)
    requires
        bound <= addr_limit(),
    ensures
        forall|i: int, j: int|
            0 <= i < j < keys_below(m, bound).len() ==> keys_below(m, bound)[i] < keys_below(m, bound)[j],
        forall|i: int|
            0 <= i < keys_below(m, bound).len() ==> m.contains_key(#[trigger] keys_below(m, bound)[i])
                && keys_below(m, bound)[i] < bound,
        forall|k: usize|
            m.contains_key(k) && k < bound ==> #[trigger] keys_below(m, bound).contains(k),
    decreases bound,
{
    if bound > 0 {
        lemma_keys_below(m, bound - 1);
        let s = keys_below(m, bound - 1);
        if m.contains_key((bound - 1) as usize) {
            assert forall|k: usize| m.contains_key(k) && k < bound implies #[trigger] keys_below(
                m,
                bound,
            ).contains(k) by {
                if k < bound - 1 {
                    assert(s.contains(k));
                    let i = choose|i: int| 0 <= i < s.len() && s[i] == k;
                    assert(keys_below(m, bound)[i] == k);
                } else {
                    assert(keys_below(m, bound)[s.len() as int] == k);
                }
            }
        } else {
            assert forall|k: usize| m.contains_key(k) && k < bound implies #[trigger] keys_below(
                m,
                bound,
            ).contains(k) by {
                assert(k < bound - 1);
            }
        }
    }
}


/// Pages still wanted after the walk meets a chapter of `n` pages while
/// `wanted` pages were wanted: a chapter no larger than what is wanted is used
/// whole and counted off; a larger one meets the request, and nothing is
/// wanted after it.
pub open spec fn wanted_after(n: int, wanted: int) -> int {
    if n > wanted {
        0
    } else {
        wanted - n
    }
}

/// The free and used maps after placing one chapter `c` of `n` pages while
/// `wanted` pages are wanted: the chapter leaves the free map; where it holds
/// more pages than are wanted, its first `wanted` pages become used and the
/// rest stay free as a new chapter right after them; else the whole chapter
/// becomes used.
pub open spec fn place_one(
    free: Map<usize, usize>,
    used: Map<usize, usize>,
    c: usize,
    n: usize,
    wanted: int,
    page_size: int,
) -> (Map<usize, usize>, Map<usize, usize>) {
    if n > wanted {
        (
            free.remove(c).insert((c + wanted * page_size) as usize, (n - wanted) as usize),
            used.insert(c, wanted as usize),
        )
    } else {
        (free.remove(c), used.insert(c, n))
    }
}

/// The free and used maps after placing the chapters `cs` (with page counts
/// `ns`) in order, starting with `wanted` pages wanted.
pub open spec fn place_all(
    free: Map<usize, usize>,
    used: Map<usize, usize>,
    cs: Seq<usize>,
    ns: Seq<usize>,
    wanted: int,
    page_size: int,
) -> (Map<usize, usize>, Map<usize, usize>)
    decreases cs.len(),
{
    if cs.len() == 0 || ns.len() == 0 {
        (free, used)
    } else {
        let (f, u) = place_one(free, used, cs[0], ns[0], wanted, page_size);
        place_all(f, u, cs.drop_first(), ns.drop_first(), wanted_after(ns[0] as int, wanted), page_size)
    }
}

/// Placing the chapters `cs` (with page counts `ns`), starting with `wanted`
/// pages wanted, computes no address beyond the machine's range: wherever a
/// chapter is split, the split point fits.
pub open spec fn place_fits(cs: Seq<usize>, ns: Seq<usize>, wanted: int, page_size: int) -> bool
    decreases cs.len(),
{
    if cs.len() == 0 || ns.len() == 0 {
        true
    } else {
        &&& (ns[0] > wanted ==> cs[0] + wanted * page_size <= usize::MAX)
        &&& place_fits(cs.drop_first(), ns.drop_first(), wanted_after(ns[0] as int, wanted), page_size)
    }
}

/// Gathering free chapters of `m` in address order until they hold `n` pages
/// keeps the running count within the machine's range: adding a chapter met
/// while fewer than `n` pages are gathered does not overflow.
pub open spec fn walk_fits(m: Map<usize, usize>, n: usize) -> bool {
    forall|k: usize| #[trigger] m.contains_key(k) && pages_below(m, k as int) < n ==> pages_below(m, k + 1) <= usize::MAX
}

/// `k` is a free chapter that ends exactly at address `p`.
pub open spec fn ends_at(free: Map<usize, usize>, page_size: int, k: usize, p: int) -> bool {
    free.contains_key(k) && k + free[k] * page_size == p
}

/// `k` is the lowest-addressed free chapter that ends exactly at `p`.
pub open spec fn is_prev_chapter(free: Map<usize, usize>, page_size: int, p: int, k: usize) -> bool {
    &&& ends_at(free, page_size, k, p)
    &&& forall|j: usize| j < k ==> !ends_at(free, page_size, j, p)
}

/// Some free chapter ends exactly at `p`.
pub open spec fn has_prev_chapter(free: Map<usize, usize>, page_size: int, p: int) -> bool {
    exists|k: usize| ends_at(free, page_size, k, p)
}

/// The lowest-addressed free chapter that ends exactly at `p`.
pub open spec fn prev_chapter(free: Map<usize, usize>, page_size: int, p: int) -> usize {
    choose|k: usize| is_prev_chapter(free, page_size, p, k)
}

/// Where the chapter that freeing `n` pages at `p` produces starts: at the
/// free chapter that ends at `p`, if there is one, else at `p`.
pub open spec fn merged_start(free: Map<usize, usize>, p: usize, page_size: int) -> usize {
    if has_prev_chapter(free, page_size, p as int) {
        prev_chapter(free, page_size, p as int)
    } else {
        p
    }
}

/// The address right after `n` pages at `p`.
pub open spec fn end_addr(p: int, n: int, page_size: int) -> int {
    p + n * page_size
}

/// Some free chapter starts right after `n` pages at `p`.
pub open spec fn has_next_chapter(free: Map<usize, usize>, p: usize, n: usize, page_size: int) -> bool {
    end_addr(p as int, n as int, page_size) <= usize::MAX && free.contains_key(
        end_addr(p as int, n as int, page_size) as usize,
    )
}

/// The page count of the chapter that freeing `n` pages at `p` produces: those
/// pages, with the free chapter ending at `p` and the one starting right after.
pub open spec fn merged_count(free: Map<usize, usize>, p: usize, n: usize, page_size: int) -> int {
    n + (if has_prev_chapter(free, page_size, p as int) {
        free[prev_chapter(free, page_size, p as int)] as int
    } else {
        0
    }) + (if has_next_chapter(free, p, n, page_size) {
        free[end_addr(p as int, n as int, page_size) as usize] as int
    } else {
        0
    })
}

/// The free map after `n` pages at `p` are freed and merged with the free
/// chapters on either side of them.
pub open spec fn coalesced(free: Map<usize, usize>, p: usize, n: usize, page_size: int) -> Map<usize, usize> {
    let start = merged_start(free, p, page_size);
    let f1 = if has_prev_chapter(free, page_size, p as int) {
        free.remove(start)
    } else {
        free
    };
    let f2 = if has_next_chapter(free, p, n, page_size) {
        f1.remove(end_addr(p as int, n as int, page_size) as usize)
    } else {
        f1
    };
    f2.insert(start, merged_count(free, p, n, page_size) as usize)
}

/// The free and used maps after the used chapters `ps` are freed in order.
pub open spec fn release_all(
    free: Map<usize, usize>,
    used: Map<usize, usize>,
    addrs: Seq<usize>,
    page_size: int,
) -> (Map<usize, usize>, Map<usize, usize>)
    decreases addrs.len(),
{
    if addrs.len() == 0 {
        (free, used)
    } else {
        let p = addrs[0];
        release_all(
            coalesced(free, p, used[p], page_size),
            used.remove(p),
            addrs.drop_first(),
            page_size,
        )
    }
}


/// The chapter of `na` pages at `a` and the one of `nb` pages at `b` do not overlap.
pub open spec fn apart(a: int, na: int, b: int, nb: int, page_size: int) -> bool {
    a + na * page_size <= b || b + nb * page_size <= a
}

/// Every chapter of `m` holds at least one page and lies within `[start, end)`.
pub open spec fn chapters_within(m: Map<usize, usize>, start: int, end: int, page_size: int) -> bool {
    forall|k: usize|
        #[trigger] m.contains_key(k) ==> m[k] > 0 && start <= k && k + m[k] * page_size <= end
}

/// No chapter of `m1` overlaps a different chapter of `m2`.
pub open spec fn chapters_apart(m1: Map<usize, usize>, m2: Map<usize, usize>, page_size: int) -> bool {
    forall|a: usize, b: usize|
        #[trigger] m1.contains_key(a) && #[trigger] m2.contains_key(b) && a != b ==> apart(
            a as int,
            m1[a] as int,
            b as int,
            m2[b] as int,
            page_size,
        )
}

/// No free chapter starts where a free chapter ends: neighbouring free pages
/// are always kept in one chapter.
pub open spec fn free_not_adjacent(free: Map<usize, usize>, page_size: int) -> bool {
    forall|a: usize, b: usize|
        #[trigger] free.contains_key(a) && #[trigger] free.contains_key(b) ==> b != a + free[a]
            * page_size
}

/// Free chapters `free` and used chapters `used` consistently keep a memory of
/// `total` pages of `page_size` bytes starting at `start`: the chapters are
/// non-empty, lie within the memory, do not overlap, no two free chapters
/// touch, and together they hold exactly all pages of the memory.
pub open spec fn books_wf(
    free: Map<usize, usize>,
    used: Map<usize, usize>,
    start: int,
    total: int,
    page_size: int,
) -> bool {
    let end = start + total * page_size;
    &&& page_size > 0
    &&& 0 <= start
    &&& end <= usize::MAX
    &&& chapters_within(free, start, end, page_size)
    &&& chapters_within(used, start, end, page_size)
    &&& chapters_apart(free, free, page_size)
    &&& chapters_apart(used, used, page_size)
    &&& chapters_apart(free, used, page_size)
    &&& free.dom().disjoint(used.dom())
    &&& free_not_adjacent(free, page_size)
    &&& total_pages(free) + total_pages(used) == total
}

/// The pages that the chapters at `addrs` of `m` hold together.
pub open spec fn pages_at(m: Map<usize, usize>, addrs: Seq<usize>) -> int
    decreases addrs.len(),
{
    if addrs.len() == 0 {
        0
    } else {
        m[addrs[0]] + pages_at(m, addrs.drop_first())
    }
}

/// The pages at `addrs` depend only on the chapters at `addrs`.
pub proof fn lemma_pages_at_same(m1: Map<usize, usize>, m2: Map<usize, usize>, addrs: Seq<usize>)
    requires
        forall|i: int| 0 <= i < addrs.len() ==> m1[#[trigger] addrs[i]] == m2[addrs[i]],
    ensures
        pages_at(m1, addrs) == pages_at(m2, addrs),
    decreases addrs.len(),
{
    if addrs.len() > 0 {
        assert(m1[addrs[0]] == m2[addrs[0]]);
        assert forall|i: int| 0 <= i < addrs.drop_first().len() implies m1[#[trigger] addrs.drop_first()[i]]
            == m2[addrs.drop_first()[i]] by {
            assert(addrs.drop_first()[i] == addrs[i + 1]);
        }
        lemma_pages_at_same(m1, m2, addrs.drop_first());
    }
}

impl PhysBook {
    /// The book is consistent for pages of `page_size` bytes (see `books_wf`).
    pub open spec fn wf(&self, page_size: int) -> bool {
        books_wf(
            self.free_pages@,
            self.used_pages@,
            self.mem_start as int,
            self.num_total_pages as int,
            page_size,
        )
    }
}


/// There is only one lowest-addressed chapter with at least `n` pages.
pub proof fn lemma_first_fit_unique(m: Map<usize, usize>, n: usize, a: usize)
    requires
        is_first_fit(m, n, a),
    ensures
        first_fit(m, n) == a,
{
    let b = first_fit(m, n);
    assert(is_first_fit(m, n, b));
    if b < a {
    } else if a < b {
    }
}

/// There is only one chapter at which the walk first gathers `n` pages.
pub proof fn lemma_stop_chapter_unique(m: Map<usize, usize>, n: usize, a: usize, b: usize)
    requires
        is_stop_chapter(m, n, a),
        is_stop_chapter(m, n, b),
    ensures
        a == b,
{
    if b < a {
    } else if a < b {
    }
}

} // verus!
