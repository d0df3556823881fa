use vstd::prelude::*;
use std::collections::BTreeMap;
use vstd::std_specs::btree::{increasing_seq, spec_btree_map_iter};
use vstd::std_specs::iter::IteratorSpec;
use crate::rust_hypervisor::paging::declarations::{NumPages, PhysAddress, VirtAddress};
use crate::rust_hypervisor::paging::key_order::{walk_keys_of, lemma_walk_of_increasing};
use crate::rust_hypervisor::paging::phys_book::{
    PhysBook, keys_below, addr_limit, lemma_below_gap, lemma_below_step, lemma_keys_below,
};
use crate::rust_hypervisor::paging::virt_book::VirtBook;
use crate::rust_hypervisor::hypervisor::RustHypervisor;
use crate::rust_hypervisor::paging::book_laws::lemma_span_positive;

verus! {

/// One line of a listing of pages: `num_pages` pages from address `start`
/// to address `end` inclusive, free or in use.
#[derive(Debug, Clone, Copy, PartialEq, Eq, Structural)]
pub struct ChapterLine {
    pub num_pages: NumPages,
    pub start: usize,
    pub end: usize,
    pub is_free: bool,
}

/// The line for `n` pages of `page_size` bytes at `k`.
pub open spec fn line_of(k: usize, n: usize, page_size: int, is_free: bool) -> ChapterLine {
    ChapterLine { num_pages: n, start: k, end: (k + n * page_size - 1) as usize, is_free }
}

/// The lines for the chapters of `m` below `bound`, in increasing address order.
pub open spec fn lines_below(m: Map<usize, usize>, bound: int, page_size: int, is_free: bool) -> Seq<ChapterLine> {
    keys_below(m, bound).map_values(|k: usize| line_of(k, m[k], page_size, is_free))
}

/// The lines for all chapters of `m`, in increasing address order.
pub open spec fn lines_of(m: Map<usize, usize>, page_size: int, is_free: bool) -> Seq<ChapterLine> {
    lines_below(m, addr_limit(), page_size, is_free)
}

/// Two listings, each in increasing address order, merged into one: at equal
/// addresses the line of the second comes first.
pub open spec fn merge_lines(a: Seq<ChapterLine>, b: Seq<ChapterLine>) -> Seq<ChapterLine>
    decreases a.len() + b.len(),
{
    if a.len() == 0 {
        b
    } else if b.len() == 0 {
        a
    } else if a[0].start < b[0].start {
        seq![a[0]] + merge_lines(a.drop_first(), b)
    } else {
        seq![b[0]] + merge_lines(a, b.drop_first())
    }
}

/// Every chapter of `m` ends within the address range, after address 0.
pub open spec fn lines_fit(m: Map<usize, usize>, page_size: int) -> bool {
    forall|k: usize| #[trigger] m.contains_key(k) ==> 1 <= k + m[k] * page_size <= usize::MAX
}

/// The lines for the chapters of `m`, in increasing address order.
pub fn chapter_lines(m: &BTreeMap<usize, usize>, page_size: usize, is_free: bool) -> (r: Vec<ChapterLine>)
    requires
        lines_fit(m@, page_size as int),
    ensures
        r@ == lines_of(m@, page_size as int, is_free),
{
    let ghost mm = m@;
    let ghost ps = page_size as int;
    let mut lines: Vec<ChapterLine> = Vec::new();
    let ghost mut bound: int = 0;
    let ghost mut idx: int = 0;
    let ghost walk = spec_btree_map_iter(m).remaining();
    for (addr, n) in it: m.iter()
        invariant
            it.seq() == walk,
            idx == it.index(),
            mm == m@,
            ps == page_size,
            lines_fit(mm, ps),
            forall|k: usize| #[trigger] mm.contains_key(k) ==> walk.contains((&k, &mm[k])),
            increasing_seq(walk_keys_of(it.seq())),
            bound == if it.index() == 0 { 0 } else { *it.seq()[it.index() - 1].0 + 1 },
            0 <= bound <= addr_limit(),
            lines@ == lines_below(mm, bound, ps, is_free),
    {
        proof {
            let s = it.seq();
            let i = it.index();
            assert(s[i] == (addr, n));
            assert(mm.contains_key(*addr) && mm[*addr] == *n);
            assert forall|k: usize| mm.contains_key(k) implies !(bound <= k < *addr) by {
                assert(s.contains((&k, &mm[k])));
                let j = choose|j: int| 0 <= j < s.len() && s[j] == (&k, &mm[k]);
                if j < i {
                    if j < i - 1 {
                        lemma_walk_of_increasing(s, j, i - 1);
                    }
                } else if j > i {
                    lemma_walk_of_increasing(s, i, j);
                }
            }
            if i > 0 {
                lemma_walk_of_increasing(s, i - 1, i);
            }
            lemma_below_gap(mm, bound, *addr as int);
            lemma_below_step(mm, *addr as int);
        }
        let line = ChapterLine {
            num_pages: *n,
            start: *addr,
            end: *addr + (*n * page_size) - 1,
            is_free,
        };
        lines.push(line);
        proof {
            bound = *addr + 1;
            idx = idx + 1;
            assert(lines@ =~= lines_below(mm, bound, ps, is_free));
        }
    }
    proof {
        let s = walk;
        assert forall|k: usize| mm.contains_key(k) implies !(bound <= k < addr_limit()) by {
            assert(s.contains((&k, &mm[k])));
            let j = choose|j: int| 0 <= j < s.len() && s[j] == (&k, &mm[k]);
            if j < s.len() - 1 {
                lemma_walk_of_increasing(s, j, s.len() - 1);
            }
        }
        lemma_below_gap(mm, bound, addr_limit());
    }
    lines
}


/// All chapters of the physical book, free and used, in increasing address
/// order, a used chapter before a free one at the same address.
pub fn phys_page_lines(phys_book: &PhysBook, page_size: usize) -> (r: Vec<ChapterLine>)
    requires
        lines_fit(phys_book.free_pages@, page_size as int),
        lines_fit(phys_book.used_pages@, page_size as int),
    ensures
        r@ == merge_lines(
            lines_of(phys_book.free_pages@, page_size as int, true),
            lines_of(phys_book.used_pages@, page_size as int, false),
        ),
{
    let free_lines = chapter_lines(&phys_book.free_pages, page_size, true);
    let used_lines = chapter_lines(&phys_book.used_pages, page_size, false);
    let ghost target = merge_lines(free_lines@, used_lines@);
    let mut lines: Vec<ChapterLine> = Vec::new();
    let mut i: usize = 0;
    let mut j: usize = 0;
    proof {
        assert(free_lines@.skip(0) == free_lines@);
        assert(used_lines@.skip(0) == used_lines@);
    }
    while i < free_lines.len() || j < used_lines.len()
        invariant
            i <= free_lines.len(),
            j <= used_lines.len(),
            lines@ + merge_lines(free_lines@.skip(i as int), used_lines@.skip(j as int)) == target,
        decreases free_lines.len() - i + used_lines.len() - j,
    {
        let ghost a = free_lines@.skip(i as int);
        let ghost b = used_lines@.skip(j as int);
        if i >= free_lines.len() {
            lines.push(used_lines[j]);
            proof {
                assert(a.len() == 0);
                assert(b == seq![b[0]] + used_lines@.skip(j + 1));
            }
            j = j + 1;
        } else if j >= used_lines.len() {
            lines.push(free_lines[i]);
            proof {
                assert(b.len() == 0);
                assert(a == seq![a[0]] + free_lines@.skip(i + 1));
            }
            i = i + 1;
        } else if free_lines[i].start < used_lines[j].start {
            lines.push(free_lines[i]);
            proof {
                assert(a.drop_first() == free_lines@.skip(i + 1));
                assert(lines@ + merge_lines(free_lines@.skip(i + 1), b) =~= target);
            }
            i = i + 1;
        } else {
            lines.push(used_lines[j]);
            proof {
                assert(b.drop_first() == used_lines@.skip(j + 1));
                assert(lines@ + merge_lines(a, used_lines@.skip(j + 1)) =~= target);
            }
            j = j + 1;
        }
    }
    proof {
        assert(free_lines@.skip(i as int).len() == 0);
        assert(used_lines@.skip(j as int).len() == 0);
        assert(lines@ =~= target);
    }
    lines
}


/// The page counts of the mappings in `virt`, by virtual address.
pub open spec fn mapped_counts(virt: Map<VirtAddress, (NumPages, Vec<PhysAddress>)>) -> Map<usize, usize> {
    virt.map_values(|e: (NumPages, Vec<PhysAddress>)| e.0)
}

/// The mapped virtual pages, one line per mapping, in increasing address order.
pub fn virt_page_lines(virt_book: &VirtBook, page_size: usize) -> (r: Vec<ChapterLine>)
    requires
        lines_fit(mapped_counts(virt_book.virt_page_mapping@), page_size as int),
    ensures
        r@ == lines_of(mapped_counts(virt_book.virt_page_mapping@), page_size as int, false),
{
    let m = &virt_book.virt_page_mapping;
    let ghost vm = m@;
    let ghost mm = mapped_counts(vm);
    let ghost ps = page_size as int;
    let mut lines: Vec<ChapterLine> = Vec::new();
    let ghost mut bound: int = 0;
    let ghost mut idx: int = 0;
    let ghost walk = spec_btree_map_iter(m).remaining();
    for (addr, entry) in it: m.iter()
        invariant
            it.seq() == walk,
            idx == it.index(),
            vm == m@,
            mm == mapped_counts(vm),
            ps == page_size,
            lines_fit(mm, ps),
            forall|k: usize| #[trigger] vm.contains_key(k) ==> walk.contains((&k, &vm[k])),
            increasing_seq(walk_keys_of(it.seq())),
            bound == if it.index() == 0 { 0 } else { *it.seq()[it.index() - 1].0 + 1 },
            0 <= bound <= addr_limit(),
            lines@ == lines_below(mm, bound, ps, false),
    {
        proof {
            let s = it.seq();
            let i = it.index();
            assert(s[i] == (addr, entry));
            assert(vm.contains_key(*addr) && vm[*addr] == *entry);
            assert(mm.contains_key(*addr) && mm[*addr] == entry.0);
            assert forall|k: usize| mm.contains_key(k) implies !(bound <= k < *addr) by {
                assert(s.contains((&k, &vm[k])));
                let j = choose|j: int| 0 <= j < s.len() && s[j] == (&k, &vm[k]);
                if j < i {
                    if j < i - 1 {
                        lemma_walk_of_increasing(s, j, i - 1);
                    }
                } else if j > i {
                    lemma_walk_of_increasing(s, i, j);
                }
            }
            if i > 0 {
                lemma_walk_of_increasing(s, i - 1, i);
            }
            lemma_below_gap(mm, bound, *addr as int);
            lemma_below_step(mm, *addr as int);
        }
        let num_pages = entry.0;
        let line = ChapterLine {
            num_pages,
            start: *addr,
            end: *addr + (num_pages * page_size) - 1,
            is_free: false,
        };
        lines.push(line);
        proof {
            bound = *addr + 1;
            idx = idx + 1;
            assert(lines@ =~= lines_below(mm, bound, ps, false));
        }
    }
    proof {
        let s = walk;
        assert forall|k: usize| mm.contains_key(k) implies !(bound <= k < addr_limit()) by {
            assert(s.contains((&k, &vm[k])));
            let j = choose|j: int| 0 <= j < s.len() && s[j] == (&k, &vm[k]);
            if j < s.len() - 1 {
                lemma_walk_of_increasing(s, j, s.len() - 1);
            }
        }
        lemma_below_gap(mm, bound, addr_limit());
    }
    lines
}


/// Every listing of a consistent hypervisor can be made: all its lines fit.
pub proof fn lemma_wf_lines_fit<ACD, ECD>(hv: RustHypervisor<ACD, ECD>)
    requires
        hv.wf(),
    ensures
        lines_fit(hv.rust_hypervisor_paging.phys_book.free_pages@, hv.page_size as int),
        lines_fit(hv.rust_hypervisor_paging.phys_book.used_pages@, hv.page_size as int),
        lines_fit(mapped_counts(hv.rust_hypervisor_paging.virt_book.virt_page_mapping@), hv.page_size as int),
{
    let ps = hv.page_size as int;
    let book = hv.rust_hypervisor_paging.phys_book;
    let virt = hv.rust_hypervisor_paging.virt_book.virt_page_mapping@;
    assert forall|k: usize| #[trigger] book.free_pages@.contains_key(k) implies 1 <= k + book.free_pages@[k] * ps <= usize::MAX by {
        lemma_span_positive(book.free_pages@[k] as int, ps);
    }
    assert forall|k: usize| #[trigger] book.used_pages@.contains_key(k) implies 1 <= k + book.used_pages@[k] * ps <= usize::MAX by {
        lemma_span_positive(book.used_pages@[k] as int, ps);
    }
    assert forall|k: usize| #[trigger] mapped_counts(virt).contains_key(k) implies 1 <= k + mapped_counts(virt)[k] * ps <= usize::MAX by {
        assert(virt.contains_key(k));
        lemma_span_positive(virt[k].0 as int, ps);
    }
}


/// The lines `ls` start at strictly increasing addresses.
pub open spec fn starts_increasing(ls: Seq<ChapterLine>) -> bool {
    forall|i: int, j: int| 0 <= i < j < ls.len() ==> ls[i].start < ls[j].start
}

/// The lines of a map's chapters start at strictly increasing addresses, each
/// describes one chapter of the map (its start, page count, last address and
/// kind), and every chapter has a line.
proof fn lemma_lines_of_facts(m: Map<usize, usize>, page_size: int, is_free: bool)
    ensures
        starts_increasing(lines_of(m, page_size, is_free)),
        forall|i: int|
            0 <= i < lines_of(m, page_size, is_free).len() ==> {
                let l = #[trigger] lines_of(m, page_size, is_free)[i];
                &&& m.contains_key(l.start)
                &&& l.num_pages == m[l.start]
                &&& l.is_free == is_free
                &&& l.end == (l.start + l.num_pages * page_size - 1) as usize
            },
        forall|k: usize|
            #[trigger] m.contains_key(k) ==> exists|i: int|
                0 <= i < lines_of(m, page_size, is_free).len() && #[trigger] lines_of(m, page_size, is_free)[i].start
                    == k,
{
    let ks = keys_below(m, addr_limit());
    let ls = lines_of(m, page_size, is_free);
    lemma_keys_below(m, addr_limit());
    assert(ls.len() == ks.len());
    assert forall|i: int| 0 <= i < ls.len() implies ls[i] == line_of(ks[i], m[ks[i]], page_size, is_free) by {}
    assert forall|k: usize| #[trigger] m.contains_key(k) implies exists|i: int|
        0 <= i < ls.len() && #[trigger] ls[i].start == k by {
        assert(ks.contains(k));
        let i = choose|i: int| 0 <= i < ks.len() && ks[i] == k;
        assert(ls[i].start == k);
    }
}

/// Merging two listings, each in strictly increasing address order and with
/// no start address in common, gives one listing in strictly increasing
/// address order holding exactly the lines of both.
proof fn lemma_merge_facts(a: Seq<ChapterLine>, b: Seq<ChapterLine>)
    requires
        starts_increasing(a),
        starts_increasing(b),
        forall|i: int, j: int| 0 <= i < a.len() && 0 <= j < b.len() ==> a[i].start != b[j].start,
    ensures
        starts_increasing(merge_lines(a, b)),
        forall|x: ChapterLine| #[trigger] merge_lines(a, b).contains(x) <==> a.contains(x) || b.contains(x),
    decreases a.len() + b.len(),
{
    if a.len() == 0 || b.len() == 0 {
    } else if a[0].start < b[0].start {
        let a1 = a.drop_first();
        lemma_merge_facts(a1, b);
        let r = merge_lines(a1, b);
        let mm = merge_lines(a, b);
        assert(mm == seq![a[0]] + r);
        assert forall|j: int| 0 <= j < r.len() implies a[0].start < #[trigger] r[j].start by {
            assert(r.contains(r[j]));
            if a1.contains(r[j]) {
                let t = choose|t: int| 0 <= t < a1.len() && a1[t] == r[j];
                assert(a[t + 1] == r[j]);
            } else {
                let t = choose|t: int| 0 <= t < b.len() && b[t] == r[j];
                if t > 0 {
                    assert(b[0].start < b[t].start);
                }
            }
        }
        assert forall|i: int, j: int| 0 <= i < j < mm.len() implies mm[i].start < mm[j].start by {
            if i == 0 {
                assert(mm[j] == r[j - 1]);
            } else {
                assert(mm[i] == r[i - 1] && mm[j] == r[j - 1]);
            }
        }
        assert forall|x: ChapterLine| #[trigger] mm.contains(x) <==> a.contains(x) || b.contains(x) by {
            if mm.contains(x) {
                let i = choose|i: int| 0 <= i < mm.len() && mm[i] == x;
                if i == 0 {
                    assert(a[0] == x);
                } else {
                    assert(r[i - 1] == x);
                    assert(r.contains(x));
                    if a1.contains(x) {
                        let t = choose|t: int| 0 <= t < a1.len() && a1[t] == x;
                        assert(a[t + 1] == x);
                    }
                }
            }
            if a.contains(x) {
                let t = choose|t: int| 0 <= t < a.len() && a[t] == x;
                if t == 0 {
                    assert(mm[0] == x);
                } else {
                    assert(a1[t - 1] == x);
                    assert(r.contains(x));
                    let i = choose|i: int| 0 <= i < r.len() && r[i] == x;
                    assert(mm[i + 1] == x);
                }
            }
            if b.contains(x) {
                assert(r.contains(x));
                let i = choose|i: int| 0 <= i < r.len() && r[i] == x;
                assert(mm[i + 1] == x);
            }
        }
    } else {
        assert(b[0].start < a[0].start);
        let b1 = b.drop_first();
        lemma_merge_facts(a, b1);
        let r = merge_lines(a, b1);
        let mm = merge_lines(a, b);
        assert(mm == seq![b[0]] + r);
        assert forall|j: int| 0 <= j < r.len() implies b[0].start < #[trigger] r[j].start by {
            assert(r.contains(r[j]));
            if b1.contains(r[j]) {
                let t = choose|t: int| 0 <= t < b1.len() && b1[t] == r[j];
                assert(b[t + 1] == r[j]);
            } else {
                let t = choose|t: int| 0 <= t < a.len() && a[t] == r[j];
                if t > 0 {
                    assert(a[0].start < a[t].start);
                }
            }
        }
        assert forall|i: int, j: int| 0 <= i < j < mm.len() implies mm[i].start < mm[j].start by {
            if i == 0 {
                assert(mm[j] == r[j - 1]);
            } else {
                assert(mm[i] == r[i - 1] && mm[j] == r[j - 1]);
            }
        }
        assert forall|x: ChapterLine| #[trigger] mm.contains(x) <==> a.contains(x) || b.contains(x) by {
            if mm.contains(x) {
                let i = choose|i: int| 0 <= i < mm.len() && mm[i] == x;
                if i == 0 {
                    assert(b[0] == x);
                } else {
                    assert(r[i - 1] == x);
                    assert(r.contains(x));
                    if b1.contains(x) {
                        let t = choose|t: int| 0 <= t < b1.len() && b1[t] == x;
                        assert(b[t + 1] == x);
                    }
                }
            }
            if b.contains(x) {
                let t = choose|t: int| 0 <= t < b.len() && b[t] == x;
                if t == 0 {
                    assert(mm[0] == x);
                } else {
                    assert(b1[t - 1] == x);
                    assert(r.contains(x));
                    let i = choose|i: int| 0 <= i < r.len() && r[i] == x;
                    assert(mm[i + 1] == x);
                }
            }
            if a.contains(x) {
                assert(r.contains(x));
                let i = choose|i: int| 0 <= i < r.len() && r[i] == x;
                assert(mm[i + 1] == x);
            }
        }
    }
}

/// The listing of one kind of chapters, as `chapter_lines` gives it, is in
/// strictly increasing address order and holds one line for each chapter of
/// the map, with its start, page count and last address.
pub proof fn law_chapter_lines_in_address_order(m: Map<usize, usize>, page_size: usize, is_free: bool)
    ensures
        forall|i: int, j: int|
            0 <= i < j < lines_of(m, page_size as int, is_free).len() ==> lines_of(m, page_size as int, is_free)[i].start
                < lines_of(m, page_size as int, is_free)[j].start,
        forall|i: int|
            0 <= i < lines_of(m, page_size as int, is_free).len() ==> {
                let l = #[trigger] lines_of(m, page_size as int, is_free)[i];
                &&& m.contains_key(l.start)
                &&& l.num_pages == m[l.start]
                &&& l.is_free == is_free
                &&& l.end == (l.start + l.num_pages * page_size - 1) as usize
            },
        forall|k: usize|
            #[trigger] m.contains_key(k) ==> exists|i: int|
                0 <= i < lines_of(m, page_size as int, is_free).len() && #[trigger] lines_of(
                    m,
                    page_size as int,
                    is_free,
                )[i].start == k,
{
    lemma_lines_of_facts(m, page_size as int, is_free);
}

/// The listing of all physical pages, as `phys_page_lines` gives it for a book
/// whose free and used chapters start at different addresses, is in strictly
/// increasing address order; each line is a free chapter marked free or a used
/// chapter marked used, with its start, page count and last address; and every
/// free and every used chapter has a line.
pub proof fn law_phys_lines_in_address_order(book: PhysBook, page_size: usize)
    requires
        book.free_pages@.dom().disjoint(book.used_pages@.dom()),
    ensures
        ({
            let free = book.free_pages@;
            let used = book.used_pages@;
            let ls = merge_lines(lines_of(free, page_size as int, true), lines_of(used, page_size as int, false));
            &&& forall|i: int, j: int| 0 <= i < j < ls.len() ==> ls[i].start < ls[j].start
            &&& forall|i: int|
                0 <= i < ls.len() ==> {
                    let l = #[trigger] ls[i];
                    &&& l.is_free ==> free.contains_key(l.start) && l.num_pages == free[l.start]
                    &&& !l.is_free ==> used.contains_key(l.start) && l.num_pages == used[l.start]
                    &&& l.end == (l.start + l.num_pages * page_size - 1) as usize
                }
            &&& forall|k: usize|
                #[trigger] free.contains_key(k) ==> exists|i: int| 0 <= i < ls.len() && ls[i].start == k && ls[i].is_free
            &&& forall|k: usize|
                #[trigger] used.contains_key(k) ==> exists|i: int| 0 <= i < ls.len() && ls[i].start == k && !ls[i].is_free
        }),
{
    let free = book.free_pages@;
    let used = book.used_pages@;
    let ps = page_size as int;
    let a = lines_of(free, ps, true);
    let b = lines_of(used, ps, false);
    lemma_lines_of_facts(free, ps, true);
    lemma_lines_of_facts(used, ps, false);
    assert forall|i: int, j: int| 0 <= i < a.len() && 0 <= j < b.len() implies a[i].start != b[j].start by {
        assert(free.contains_key(a[i].start) && used.contains_key(b[j].start));
    }
    lemma_merge_facts(a, b);
    let ls = merge_lines(a, b);
    assert forall|i: int| 0 <= i < ls.len() implies {
        let l = #[trigger] ls[i];
        &&& l.is_free ==> free.contains_key(l.start) && l.num_pages == free[l.start]
        &&& !l.is_free ==> used.contains_key(l.start) && l.num_pages == used[l.start]
        &&& l.end == (l.start + l.num_pages * page_size - 1) as usize
    } by {
        assert(ls.contains(ls[i]));
        if a.contains(ls[i]) {
            let t = choose|t: int| 0 <= t < a.len() && a[t] == ls[i];
        } else {
            let t = choose|t: int| 0 <= t < b.len() && b[t] == ls[i];
        }
    }
    assert forall|k: usize| #[trigger] free.contains_key(k) implies exists|i: int|
        0 <= i < ls.len() && ls[i].start == k && ls[i].is_free by {
        let t = choose|t: int| 0 <= t < a.len() && #[trigger] a[t].start == k;
        assert(a.contains(a[t]));
        assert(ls.contains(a[t]));
        let i = choose|i: int| 0 <= i < ls.len() && ls[i] == a[t];
    }
    assert forall|k: usize| #[trigger] used.contains_key(k) implies exists|i: int|
        0 <= i < ls.len() && ls[i].start == k && !ls[i].is_free by {
        let t = choose|t: int| 0 <= t < b.len() && #[trigger] b[t].start == k;
        assert(b.contains(b[t]));
        assert(ls.contains(b[t]));
        let i = choose|i: int| 0 <= i < ls.len() && ls[i] == b[t];
    }
}

/// The listing of virtual pages, as `virt_page_lines` gives it, is in
/// strictly increasing address order and holds one line for each mapping, at
/// its virtual address and with its page count.
pub proof fn law_virt_lines_in_address_order(virt: Map<VirtAddress, (NumPages, Vec<PhysAddress>)>, page_size: usize)
    ensures
        ({
            let ls = lines_of(mapped_counts(virt), page_size as int, false);
            &&& forall|i: int, j: int| 0 <= i < j < ls.len() ==> ls[i].start < ls[j].start
            &&& forall|i: int|
                0 <= i < ls.len() ==> virt.contains_key(#[trigger] ls[i].start) && ls[i].num_pages
                    == virt[ls[i].start].0
            &&& forall|v: VirtAddress| #[trigger] virt.contains_key(v) ==> exists|i: int| 0 <= i < ls.len() && ls[i].start == v
        }),
{
    let m = mapped_counts(virt);
    lemma_lines_of_facts(m, page_size as int, false);
    let ls = lines_of(m, page_size as int, false);
    assert forall|i: int| 0 <= i < ls.len() implies virt.contains_key(#[trigger] ls[i].start) && ls[i].num_pages
        == virt[ls[i].start].0 by {
        assert(m.contains_key(ls[i].start));
    }
    assert forall|v: VirtAddress| #[trigger] virt.contains_key(v) implies exists|i: int| 0 <= i < ls.len() && ls[i].start == v by {
        assert(m.contains_key(v));
    }
}

} // verus!
