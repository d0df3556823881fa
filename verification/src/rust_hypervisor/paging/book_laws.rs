use vstd::prelude::*;
use crate::rust_hypervisor::paging::phys_book::{
    pages_below, total_pages, addr_limit, apart, books_wf, chapters_within, chapters_apart,
    wanted_after, place_one, place_all, counts_of, ends_at, is_prev_chapter,
    has_prev_chapter, prev_chapter, merged_start, end_addr, has_next_chapter, merged_count,
    coalesced, release_all, keys_below, chapters_for, lemma_keys_below, is_stop_chapter,
    free_not_adjacent, pages_at, place_fits, walk_fits, lemma_below_monotone,
    lemma_below_gap, lemma_below_step,
};

verus! {

/// Page counts are never negative.
pub proof fn lemma_below_nonneg(m: Map<usize, usize>, b: int)
    ensures
        pages_below(m, b) >= 0,
    decreases b,
{
    if b > 0 {
        lemma_below_nonneg(m, b - 1);
    }
}

/// Adding a chapter adds its pages to every bound above it.
pub proof fn lemma_below_insert(m: Map<usize, usize>, k: usize, v: usize, b: int)
    requires
        !m.contains_key(k),
        b <= addr_limit(),
    ensures
        pages_below(m.insert(k, v), b) == pages_below(m, b) + if k < b { v as int } else { 0 },
    decreases b,
{
    if b > 0 {
        lemma_below_insert(m, k, v, b - 1);
        assert(m.insert(k, v).contains_key((b - 1) as usize) == (m.contains_key((b - 1) as usize)
            || k == b - 1));
    }
}

/// Removing a chapter takes its pages from every bound above it.
pub proof fn lemma_below_remove(m: Map<usize, usize>, k: usize, b: int)
    requires
        m.contains_key(k),
        b <= addr_limit(),
    ensures
        pages_below(m.remove(k), b) == pages_below(m, b) - if k < b { m[k] as int } else { 0 },
    decreases b,
{
    if b > 0 {
        lemma_below_remove(m, k, b - 1);
        assert(m.remove(k).contains_key((b - 1) as usize) == (m.contains_key((b - 1) as usize)
            && k != b - 1));
    }
}

/// The total of a map with a new chapter added.
pub proof fn lemma_total_insert(m: Map<usize, usize>, k: usize, v: usize)
    requires
        !m.contains_key(k),
    ensures
        total_pages(m.insert(k, v)) == total_pages(m) + v,
{
    lemma_below_insert(m, k, v, addr_limit());
}

/// The total of a map with a chapter removed.
pub proof fn lemma_total_remove(m: Map<usize, usize>, k: usize)
    requires
        m.contains_key(k),
    ensures
        total_pages(m.remove(k)) == total_pages(m) - m[k],
{
    lemma_below_remove(m, k, addr_limit());
}

/// A chapter holds no more pages than the whole map, and two different
/// chapters together hold no more either.
pub proof fn lemma_total_bounds(m: Map<usize, usize>, a: usize, b: usize)
    requires
        m.contains_key(a),
        m.contains_key(b),
        a != b,
    ensures
        m[a] <= total_pages(m),
        m[a] + m[b] <= total_pages(m),
{
    lemma_total_remove(m, a);
    lemma_total_remove(m.remove(a), b);
    lemma_below_nonneg(m.remove(a).remove(b), addr_limit());
}


/// Splitting `n` pages into a first part of `w` pages and the rest.
pub proof fn lemma_split_sizes(w: int, n: int, page_size: int)
    requires
        0 < w < n,
        page_size > 0,
    ensures
        w * page_size + (n - w) * page_size == n * page_size,
        0 < w * page_size < n * page_size,
        (n - w) * page_size > 0,
{
    assert(w * page_size + (n - w) * page_size == n * page_size) by (nonlinear_arith);
    assert(0 < w * page_size) by (nonlinear_arith)
        requires
            0 < w,
            page_size > 0,
    ;
    assert(w * page_size < n * page_size) by (nonlinear_arith)
        requires
            w < n,
            page_size > 0,
    ;
}

/// A chapter of at least one page spans at least one byte.
pub proof fn lemma_span_positive(n: int, page_size: int)
    requires
        n > 0,
        page_size > 0,
    ensures
        n * page_size >= n,
        n * page_size > 0,
{
    assert(n * page_size >= n) by (nonlinear_arith)
        requires
            n > 0,
            page_size > 0,
    ;
}

/// Placing one free chapter keeps the books consistent, as long as some
/// pages are wanted; the other free chapters stay as they were.
pub proof fn lemma_place_one_wf(
    free: Map<usize, usize>,
    used: Map<usize, usize>,
    start: int,
    total: int,
    page_size: int,
    c: usize,
    wanted: int,
)
    requires
        books_wf(free, used, start, total, page_size),
        free.contains_key(c),
        wanted > 0,
    ensures
        books_wf(
            place_one(free, used, c, free[c], wanted, page_size).0,
            place_one(free, used, c, free[c], wanted, page_size).1,
            start,
            total,
            page_size,
        ),
        forall|k: usize|
            #![trigger free.contains_key(k)]
            free.contains_key(k) && k != c ==> place_one(
                free,
                used,
                c,
                free[c],
                wanted,
                page_size,
            ).0.contains_key(k) && place_one(free, used, c, free[c], wanted, page_size).0[k]
                == free[k],
        place_one(free, used, c, free[c], wanted, page_size).1.dom() == used.dom().insert(c),
{
    let n = free[c] as int;
    let w = wanted;
    let (f2, u2) = place_one(free, used, c, free[c], wanted, page_size);
    let end = start + total * page_size;
    assert(!used.contains_key(c));
    lemma_span_positive(n, page_size);
    lemma_total_remove(free, c);
    if n > w {
        let r = (c + w * page_size) as usize;
        lemma_split_sizes(w, n, page_size);
        assert(r == c + w * page_size);
        // `r` lies strictly inside chapter `c`, so no other chapter starts there.
        assert(!free.contains_key(r)) by {
            if free.contains_key(r) {
                assert(r != c);
                assert(apart(c as int, n, r as int, free[r] as int, page_size));
                lemma_span_positive(free[r] as int, page_size);
            }
        }
        assert(!used.contains_key(r)) by {
            if used.contains_key(r) {
                assert(apart(c as int, n, r as int, used[r] as int, page_size));
                lemma_span_positive(used[r] as int, page_size);
            }
        }
        let f1 = free.remove(c);
        assert(!f1.contains_key(r));
        lemma_total_insert(f1, r, (n - w) as usize);
        lemma_total_insert(used, c, w as usize);
        assert(f2 == f1.insert(r, (n - w) as usize));
        assert(u2 == used.insert(c, w as usize));
        assert(chapters_within(f2, start, end, page_size));
        assert(chapters_within(u2, start, end, page_size));
        assert forall|a: usize, b: usize|
            #[trigger] f2.contains_key(a) && #[trigger] f2.contains_key(b) && a != b implies apart(
            a as int,
            f2[a] as int,
            b as int,
            f2[b] as int,
            page_size,
        ) by {
            if a == r {
                assert(apart(c as int, n, b as int, free[b] as int, page_size));
            } else if b == r {
                assert(apart(a as int, free[a] as int, c as int, n, page_size));
            }
        }
        assert forall|a: usize, b: usize|
            #[trigger] u2.contains_key(a) && #[trigger] u2.contains_key(b) && a != b implies apart(
            a as int,
            u2[a] as int,
            b as int,
            u2[b] as int,
            page_size,
        ) by {
            if a == c {
                assert(apart(c as int, n, b as int, used[b] as int, page_size));
            } else if b == c {
                assert(apart(a as int, used[a] as int, c as int, n, page_size));
            }
        }
        assert forall|a: usize, b: usize|
            #[trigger] f2.contains_key(a) && #[trigger] u2.contains_key(b) && a != b implies apart(
            a as int,
            f2[a] as int,
            b as int,
            u2[b] as int,
            page_size,
        ) by {
            if a == r && b == c {
            } else if a == r {
                assert(apart(c as int, n, b as int, used[b] as int, page_size));
            } else if b == c {
                assert(apart(a as int, free[a] as int, c as int, n, page_size));
            }
        }
        assert forall|a: usize, b: usize|
            #[trigger] f2.contains_key(a) && #[trigger] f2.contains_key(b) implies b != a + f2[a]
            * page_size by {
            if a == r {
                // `r` ends where `c` ended, and no free chapter starts there.
                if b != r {
                    assert(b != c + n * page_size);
                }
            } else if b == r {
                assert(apart(a as int, free[a] as int, c as int, n, page_size));
                lemma_span_positive(free[a] as int, page_size);
            }
        }
        assert(f2.dom().disjoint(u2.dom()));
        assert(forall|k: usize|
            #![trigger free.contains_key(k)]
            free.contains_key(k) && k != c ==> f2.contains_key(k) && f2[k] == free[k]);
        assert(u2.dom() == used.dom().insert(c));
    } else {
        lemma_total_insert(used, c, n as usize);
        assert(f2 == free.remove(c));
        assert(u2 == used.insert(c, n as usize));
        assert forall|a: usize, b: usize|
            #[trigger] u2.contains_key(a) && #[trigger] u2.contains_key(b) && a != b implies apart(
            a as int,
            u2[a] as int,
            b as int,
            u2[b] as int,
            page_size,
        ) by {
            if a == c {
                assert(apart(c as int, n, b as int, used[b] as int, page_size));
            } else if b == c {
                assert(apart(a as int, used[a] as int, c as int, n, page_size));
            }
        }
        assert forall|a: usize, b: usize|
            #[trigger] f2.contains_key(a) && #[trigger] u2.contains_key(b) && a != b implies apart(
            a as int,
            f2[a] as int,
            b as int,
            u2[b] as int,
            page_size,
        ) by {
            if b == c {
                assert(apart(a as int, free[a] as int, c as int, n, page_size));
            }
        }
        assert(f2.dom().disjoint(u2.dom()));
        assert(u2.dom() == used.dom().insert(c));
    }
}


/// Placing distinct free chapters in order keeps the books consistent, where
/// they reach the wanted pages at the last one; the placed chapters become used.
pub proof fn lemma_place_all_wf(
    free: Map<usize, usize>,
    used: Map<usize, usize>,
    start: int,
    total: int,
    page_size: int,
    cs: Seq<usize>,
    wanted: int,
)
    requires
        books_wf(free, used, start, total, page_size),
        reaches(counts_of(free, cs), wanted),
        cs.no_duplicates(),
        forall|i: int| 0 <= i < cs.len() ==> free.contains_key(#[trigger] cs[i]),
    ensures
        books_wf(
            place_all(free, used, cs, counts_of(free, cs), wanted, page_size).0,
            place_all(free, used, cs, counts_of(free, cs), wanted, page_size).1,
            start,
            total,
            page_size,
        ),
        place_all(free, used, cs, counts_of(free, cs), wanted, page_size).1.dom() == used.dom()
            + cs.to_set(),
    decreases cs.len(),
{
    if cs.len() == 0 {
        assert(cs.to_set() == Set::<usize>::empty());
        assert(used.dom() + cs.to_set() == used.dom());
    } else {
        let c = cs[0];
        let ns = counts_of(free, cs);
        assert(ns[0] == free[c]);
        lemma_reaches_step(ns, wanted);
        lemma_place_one_wf(free, used, start, total, page_size, c, wanted);
        let (f1, u1) = place_one(free, used, c, free[c], wanted, page_size);
        let rest = cs.drop_first();
        let w = wanted_after(free[c] as int, wanted);
        assert forall|i: int| 0 <= i < rest.len() implies f1.contains_key(#[trigger] rest[i]) && f1[rest[i]]
            == free[rest[i]] by {
            assert(rest[i] == cs[i + 1]);
            assert(cs[i + 1] != cs[0]);
        }
        assert(rest.no_duplicates()) by {
            assert forall|i: int, j: int| 0 <= i < j < rest.len() implies rest[i] != rest[j] by {
                assert(rest[i] == cs[i + 1] && rest[j] == cs[j + 1]);
            }
        }
        assert(ns.drop_first() == counts_of(f1, rest));
        lemma_place_all_wf(f1, u1, start, total, page_size, rest, w);
        assert(used.dom() + cs.to_set() == used.dom().insert(c) + rest.to_set()) by {
            assert forall|k: usize| cs.to_set().contains(k) <==> (k == c || rest.to_set().contains(k)) by {
                if cs.to_set().contains(k) {
                    let i = choose|i: int| 0 <= i < cs.len() && cs[i] == k;
                    if i > 0 {
                        assert(rest[i - 1] == k);
                    }
                }
                if rest.to_set().contains(k) {
                    let i = choose|i: int| 0 <= i < rest.len() && rest[i] == k;
                    assert(cs[i + 1] == k);
                }
                if k == c {
                    assert(cs[0] == k);
                }
            }
        }
    }
}


/// In consistent books, at most one free chapter ends at a given address, and
/// when one does it is the one `prev_chapter` names.
pub proof fn lemma_prev_chapter(
    free: Map<usize, usize>,
    used: Map<usize, usize>,
    start: int,
    total: int,
    page_size: int,
    p: int,
)
    requires
        books_wf(free, used, start, total, page_size),
    ensures
        has_prev_chapter(free, page_size, p) ==> is_prev_chapter(
            free,
            page_size,
            p,
            prev_chapter(free, page_size, p),
        ),
        forall|a: usize, b: usize|
            ends_at(free, page_size, a, p) && ends_at(free, page_size, b, p) ==> a == b,
{
    assert forall|a: usize, b: usize|
        ends_at(free, page_size, a, p) && ends_at(free, page_size, b, p) implies a == b by {
        if a != b {
            assert(apart(a as int, free[a] as int, b as int, free[b] as int, page_size));
            lemma_span_positive(free[a] as int, page_size);
            lemma_span_positive(free[b] as int, page_size);
        }
    }
    if has_prev_chapter(free, page_size, p) {
        let k = choose|k: usize| ends_at(free, page_size, k, p);
        assert(is_prev_chapter(free, page_size, p, k));
    }
}

/// Three sizes added up, then scaled.
pub proof fn lemma_scale_sum(a: int, b: int, c: int, page_size: int)
    ensures
        (a + b + c) * page_size == a * page_size + b * page_size + c * page_size,
{
    assert((a + b + c) * page_size == a * page_size + b * page_size + c * page_size)
        by (nonlinear_arith);
}

/// Freeing a used chapter keeps the books consistent; the arithmetic the
/// merge does stays within the machine's range.
pub proof fn lemma_release_one_wf(
    free: Map<usize, usize>,
    used: Map<usize, usize>,
    start: int,
    total: int,
    page_size: int,
    p: usize,
)
    requires
        books_wf(free, used, start, total, page_size),
        used.contains_key(p),
    ensures
        end_addr(p as int, used[p] as int, page_size) <= usize::MAX,
        forall|k: usize| #[trigger] free.contains_key(k) ==> k + free[k] * page_size <= usize::MAX,
        merged_count(free, p, used[p], page_size) <= usize::MAX,
        books_wf(coalesced(free, p, used[p], page_size), used.remove(p), start, total, page_size),
{
    let n = used[p] as int;
    let end = start + total * page_size;
    let hp = has_prev_chapter(free, page_size, p as int);
    let hn = has_next_chapter(free, p, used[p], page_size);
    let s = merged_start(free, p, page_size);
    let prev = prev_chapter(free, page_size, p as int);
    let nxt = end_addr(p as int, n, page_size) as usize;
    let pn: int = if hp { free[prev] as int } else { 0 };
    let nn: int = if hn { free[nxt] as int } else { 0 };
    let m = merged_count(free, p, used[p], page_size);
    let e = p + n * page_size + nn * page_size;
    lemma_prev_chapter(free, used, start, total, page_size, p as int);
    lemma_span_positive(n, page_size);
    assert(!free.contains_key(p));
    assert(m == n + pn + nn);
    lemma_scale_sum(n, pn, nn, page_size);
    if hp {
        lemma_span_positive(pn, page_size);
        assert(s == prev);
        assert(prev + pn * page_size == p);
    }
    if hn {
        lemma_span_positive(nn, page_size);
        assert(nxt == p + n * page_size);
    }
    assert(s + m * page_size == e);
    assert(hp && hn ==> prev != nxt);
    // The pages involved fit the machine.
    assert(total_pages(used) >= n) by {
        lemma_total_remove(used, p);
        lemma_below_nonneg(used.remove(p), addr_limit());
    }
    assert(pn + nn <= total_pages(free)) by {
        if hp && hn {
            lemma_total_bounds(free, prev, nxt);
        } else if hp {
            lemma_total_remove(free, prev);
            lemma_below_nonneg(free.remove(prev), addr_limit());
        } else if hn {
            lemma_total_remove(free, nxt);
            lemma_below_nonneg(free.remove(nxt), addr_limit());
        }
        lemma_below_nonneg(free, addr_limit());
    }
    assert(total <= usize::MAX) by {
        lemma_below_nonneg(free, addr_limit());
        lemma_below_nonneg(used, addr_limit());
        if total > 0 {
            lemma_span_positive(total, page_size);
        }
    }
    // The free map after the merge, step by step.
    let f1 = if hp { free.remove(s) } else { free };
    let f2 = if hn { f1.remove(nxt) } else { f1 };
    let f3 = coalesced(free, p, used[p], page_size);
    let u2 = used.remove(p);
    assert(f3 == f2.insert(s, m as usize));
    assert(!f2.contains_key(s));
    if hp {
        lemma_total_remove(free, s);
    }
    if hn {
        lemma_total_remove(f1, nxt);
    }
    lemma_total_insert(f2, s, m as usize);
    lemma_total_remove(used, p);
    assert(total_pages(f3) + total_pages(u2) == total);
    // Every other chapter lies apart from the freed pages and both neighbours,
    // hence apart from the merged chapter.
    assert forall|b: usize, nb: int|
        (f2.contains_key(b) && nb == f2[b] || u2.contains_key(b) && nb == u2[b]) implies apart(
        s as int,
        m,
        b as int,
        nb,
        page_size,
    ) by {
        lemma_span_positive(nb, page_size);
        if f2.contains_key(b) && nb == f2[b] {
            assert(apart(b as int, nb, p as int, n, page_size));
            if hp {
                assert(apart(b as int, nb, prev as int, pn, page_size));
            }
            if hn {
                assert(apart(b as int, nb, nxt as int, nn, page_size));
            }
        } else {
            assert(apart(b as int, nb, p as int, n, page_size));
            if hp {
                assert(apart(prev as int, pn, b as int, nb, page_size));
            }
            if hn {
                assert(apart(nxt as int, nn, b as int, nb, page_size));
            }
        }
    }
    assert(chapters_within(f3, start, end, page_size)) by {
        if hn {
            assert(nxt + nn * page_size <= end);
        }
    }
    assert(chapters_within(u2, start, end, page_size));
    assert forall|a: usize, b: usize|
        #[trigger] f3.contains_key(a) && #[trigger] f3.contains_key(b) && a != b implies apart(
        a as int,
        f3[a] as int,
        b as int,
        f3[b] as int,
        page_size,
    ) by {
        if a == s {
            assert(f2.contains_key(b));
        } else if b == s {
            assert(f2.contains_key(a));
            assert(apart(s as int, m, a as int, f3[a] as int, page_size));
        }
    }
    assert(chapters_apart(u2, u2, page_size));
    assert forall|a: usize, b: usize|
        #[trigger] f3.contains_key(a) && #[trigger] u2.contains_key(b) && a != b implies apart(
        a as int,
        f3[a] as int,
        b as int,
        u2[b] as int,
        page_size,
    ) by {
        if a == s {
            assert(u2.contains_key(b));
        }
    }
    assert(f3.dom().disjoint(u2.dom()));
    assert forall|a: usize, b: usize|
        #[trigger] f3.contains_key(a) && #[trigger] f3.contains_key(b) implies b != a + f3[a]
        * page_size by {
        if a == s {
            lemma_span_positive(m, page_size);
            if b != s {
                assert(f2.contains_key(b));
                if hn {
                    assert(b != nxt + free[nxt] * page_size);
                }
            }
        } else if b == s {
            assert(f2.contains_key(a));
            if hp {
                assert(prev != a + free[a] * page_size);
            } else {
                assert(!ends_at(free, page_size, a, p as int));
            }
        }
    }
}


/// Freeing distinct used chapters in order keeps the books consistent; the
/// freed chapters are no longer used.
pub proof fn lemma_release_all_wf(
    free: Map<usize, usize>,
    used: Map<usize, usize>,
    start: int,
    total: int,
    page_size: int,
    addrs: Seq<usize>,
)
    requires
        books_wf(free, used, start, total, page_size),
        addrs.no_duplicates(),
        forall|i: int| 0 <= i < addrs.len() ==> used.contains_key(#[trigger] addrs[i]),
    ensures
        books_wf(
            release_all(free, used, addrs, page_size).0,
            release_all(free, used, addrs, page_size).1,
            start,
            total,
            page_size,
        ),
        release_all(free, used, addrs, page_size).1 == used.remove_keys(addrs.to_set()),
    decreases addrs.len(),
{
    if addrs.len() == 0 {
        assert(used.remove_keys(addrs.to_set()) == used);
    } else {
        let p = addrs[0];
        let rest = addrs.drop_first();
        lemma_release_one_wf(free, used, start, total, page_size, p);
        let f1 = coalesced(free, p, used[p], page_size);
        let u1 = used.remove(p);
        assert forall|i: int| 0 <= i < rest.len() implies u1.contains_key(#[trigger] rest[i]) by {
            assert(rest[i] == addrs[i + 1]);
            assert(addrs[i + 1] != addrs[0]);
        }
        assert(rest.no_duplicates()) by {
            assert forall|i: int, j: int| 0 <= i < j < rest.len() implies rest[i] != rest[j] by {
                assert(rest[i] == addrs[i + 1] && rest[j] == addrs[j + 1]);
            }
        }
        lemma_release_all_wf(f1, u1, start, total, page_size, rest);
        assert(u1.remove_keys(rest.to_set()) == used.remove_keys(addrs.to_set())) by {
            assert forall|k: usize| addrs.to_set().contains(k) <==> (k == p || rest.to_set().contains(k)) by {
                if addrs.to_set().contains(k) {
                    let i = choose|i: int| 0 <= i < addrs.len() && addrs[i] == k;
                    if i > 0 {
                        assert(rest[i - 1] == k);
                    }
                }
                if rest.to_set().contains(k) {
                    let i = choose|i: int| 0 <= i < rest.len() && rest[i] == k;
                    assert(addrs[i + 1] == k);
                }
                if k == p {
                    assert(addrs[0] == k);
                }
            }
        }
    }
}

/// What consistent books tell about the sizes involved: the memory fits the
/// machine, and so do the free pages and every free chapter.
pub proof fn lemma_books_bounds(
    free: Map<usize, usize>,
    used: Map<usize, usize>,
    start: int,
    total: int,
    page_size: int,
)
    requires
        books_wf(free, used, start, total, page_size),
    ensures
        0 <= total <= usize::MAX,
        0 <= total_pages(free) <= total,
        0 <= total_pages(used) <= total,
        forall|k: usize| #[trigger] free.contains_key(k) ==> k + free[k] * page_size <= usize::MAX,
{
    lemma_below_nonneg(free, addr_limit());
    lemma_below_nonneg(used, addr_limit());
    if total > 0 {
        lemma_span_positive(total, page_size);
    }
}


/// The chapters a walk gathers are distinct free chapters.
pub proof fn lemma_keys_below_no_duplicates(m: Map<usize, usize>, cs: Seq<usize>)
    requires
        exists|n: usize| cs == #[trigger] chapters_for(m, n),
    ensures
        cs.no_duplicates(),
        forall|i: int| 0 <= i < cs.len() ==> m.contains_key(#[trigger] cs[i]),
{
    let n = choose|n: usize| cs == #[trigger] chapters_for(m, n);
    let bound = if exists|k: usize| crate::rust_hypervisor::paging::phys_book::is_stop_chapter(m, n, k) {
        (choose|k: usize| crate::rust_hypervisor::paging::phys_book::is_stop_chapter(m, n, k)) + 1
    } else {
        addr_limit()
    };
    assert(cs == keys_below(m, bound));
    lemma_keys_below(m, bound);
    assert forall|i: int, j: int| 0 <= i < cs.len() && 0 <= j < cs.len() && i != j implies cs[i] != cs[j] by {
        if i < j {
            assert(cs[i] < cs[j]);
        } else {
            assert(cs[j] < cs[i]);
        }
    }
}


/// The free and used maps after the single used chapter at `c` is freed.
pub open spec fn release_one(
    free: Map<usize, usize>,
    used: Map<usize, usize>,
    c: usize,
    page_size: int,
) -> (Map<usize, usize>, Map<usize, usize>) {
    (coalesced(free, c, used[c], page_size), used.remove(c))
}

/// Freeing a chapter right after placing it gives back the books as they were.
pub proof fn lemma_release_after_place_one(
    free: Map<usize, usize>,
    used: Map<usize, usize>,
    start: int,
    total: int,
    page_size: int,
    c: usize,
    wanted: int,
)
    requires
        books_wf(free, used, start, total, page_size),
        free.contains_key(c),
        wanted > 0,
    ensures
        ({
            let placed = place_one(free, used, c, free[c], wanted, page_size);
            release_one(placed.0, placed.1, c, page_size) == (free, used)
        }),
{
    let n = free[c] as int;
    let a = wanted;
    let (f1, u1) = place_one(free, used, c, free[c], wanted, page_size);
    lemma_place_one_wf(free, used, start, total, page_size, c, wanted);
    lemma_span_positive(n, page_size);
    assert(!used.contains_key(c));
    let u = u1[c] as int;
    // No free chapter ends at `c`: the old ones do not touch `c`, and the rest
    // of `c` ends where `c` ended.
    assert(!has_prev_chapter(f1, page_size, c as int)) by {
        if has_prev_chapter(f1, page_size, c as int) {
            let k = choose|k: usize| ends_at(f1, page_size, k, c as int);
            if free.contains_key(k) && k != c && f1[k] == free[k] {
                assert(c != k + free[k] * page_size);
            } else {
                assert(n > a);
                lemma_split_sizes(a, n, page_size);
                assert(k == c + a * page_size);
            }
        }
    }
    assert(merged_start(f1, c, page_size) == c);
    if n > a {
        let r = (c + a * page_size) as usize;
        lemma_split_sizes(a, n, page_size);
        assert(u == a);
        assert(has_next_chapter(f1, c, u1[c], page_size));
        assert(end_addr(c as int, u, page_size) as usize == r);
        assert(merged_count(f1, c, u1[c], page_size) == n);
        assert(!free.contains_key(r)) by {
            if free.contains_key(r) {
                assert(apart(c as int, n, r as int, free[r] as int, page_size));
                lemma_span_positive(free[r] as int, page_size);
            }
        }
        assert(coalesced(f1, c, u1[c], page_size) =~= free);
    } else {
        assert(u == n);
        assert(!has_next_chapter(f1, c, u1[c], page_size)) by {
            if has_next_chapter(f1, c, u1[c], page_size) {
                let e = end_addr(c as int, n, page_size) as usize;
                assert(free.contains_key(e));
                assert(e != c + free[c] * page_size);
            }
        }
        assert(merged_count(f1, c, u1[c], page_size) == n);
        assert(coalesced(f1, c, u1[c], page_size) =~= free);
    }
    assert(u1.remove(c) =~= used);
}


/// Where the rest of a split chapter starts: strictly inside the chapter.
pub proof fn lemma_split_point_inside(c: int, n: int, wanted: int, page_size: int)
    requires
        n > wanted,
        wanted > 0,
        page_size > 0,
    ensures
        c < c + wanted * page_size < c + n * page_size,
{
    lemma_split_sizes(wanted, n, page_size);
}

/// Placing two different free chapters gives the same books in either order.
pub proof fn lemma_place_one_swap(
    free: Map<usize, usize>,
    used: Map<usize, usize>,
    start: int,
    total: int,
    page_size: int,
    c: usize,
    wc: int,
    d: usize,
    wd: int,
)
    requires
        books_wf(free, used, start, total, page_size),
        free.contains_key(c),
        free.contains_key(d),
        c != d,
        wc > 0,
        wd > 0,
    ensures
        ({
            let s1 = place_one(free, used, c, free[c], wc, page_size);
            let s2 = place_one(free, used, d, free[d], wd, page_size);
            place_one(s1.0, s1.1, d, free[d], wd, page_size) == place_one(
                s2.0,
                s2.1,
                c,
                free[c],
                wc,
                page_size,
            )
        }),
{
    let nc = free[c] as int;
    let nd = free[d] as int;
    let ac = wc;
    let ad = wd;
    let rc = (c + ac * page_size) as usize;
    let rd = (d + ad * page_size) as usize;
    assert(apart(c as int, nc, d as int, nd, page_size));
    lemma_span_positive(nc, page_size);
    lemma_span_positive(nd, page_size);
    if nc > ac {
        lemma_split_point_inside(c as int, nc, wc, page_size);
        assert(rc != d);
    }
    if nd > ad {
        lemma_split_point_inside(d as int, nd, wd, page_size);
        assert(rd != c);
    }
    if nc > ac && nd > ad {
        assert(rc != rd);
    }
    let s1 = place_one(free, used, c, free[c], wc, page_size);
    let s2 = place_one(free, used, d, free[d], wd, page_size);
    let l = place_one(s1.0, s1.1, d, free[d], wd, page_size);
    let r = place_one(s2.0, s2.1, c, free[c], wc, page_size);
    assert(l.0 =~= r.0);
    assert(l.1 =~= r.1);
}


/// Freeing the first of several placed chapters gives the books as if only
/// the others had been placed.
pub proof fn lemma_release_first_placed(
    free: Map<usize, usize>,
    used: Map<usize, usize>,
    start: int,
    total: int,
    page_size: int,
    c: usize,
    wanted: int,
    others: Seq<usize>,
    wanted_others: int,
)
    requires
        books_wf(free, used, start, total, page_size),
        free.contains_key(c),
        wanted > 0,
        reaches(counts_of(free, others), wanted_others),
        others.no_duplicates(),
        !others.contains(c),
        forall|i: int| 0 <= i < others.len() ==> free.contains_key(#[trigger] others[i]),
    ensures
        ({
            let p1 = place_one(free, used, c, free[c], wanted, page_size);
            let x = place_all(p1.0, p1.1, others, counts_of(free, others), wanted_others, page_size);
            release_one(x.0, x.1, c, page_size) == place_all(
                free,
                used,
                others,
                counts_of(free, others),
                wanted_others,
                page_size,
            )
        }),
    decreases others.len(),
{
    let p1 = place_one(free, used, c, free[c], wanted, page_size);
    if others.len() == 0 {
        lemma_release_after_place_one(free, used, start, total, page_size, c, wanted);
    } else {
        let d = others[0];
        let rest = others.drop_first();
        let ns = counts_of(free, others);
        assert(ns[0] == free[d]);
        assert(d != c);
        lemma_reaches_step(ns, wanted_others);
        lemma_place_one_wf(free, used, start, total, page_size, c, wanted);
        lemma_place_one_wf(free, used, start, total, page_size, d, wanted_others);
        lemma_place_one_swap(free, used, start, total, page_size, c, wanted, d, wanted_others);
        let g = place_one(free, used, d, free[d], wanted_others, page_size);
        let w3 = wanted_after(free[d] as int, wanted_others);
        assert(p1.0[d] == free[d]);
        assert(g.0[c] == free[c]);
        assert forall|i: int| 0 <= i < rest.len() implies g.0.contains_key(#[trigger] rest[i])
            && g.0[rest[i]] == free[rest[i]] && rest[i] != c by {
            assert(rest[i] == others[i + 1]);
            assert(others[i + 1] != others[0]);
        }
        assert(rest.no_duplicates()) by {
            assert forall|i: int, j: int| 0 <= i < j < rest.len() implies rest[i] != rest[j] by {
                assert(rest[i] == others[i + 1] && rest[j] == others[j + 1]);
            }
        }
        assert(!rest.contains(c)) by {
            if rest.contains(c) {
                let i = choose|i: int| 0 <= i < rest.len() && rest[i] == c;
                assert(others[i + 1] == c);
            }
        }
        assert(counts_of(g.0, rest) =~= ns.drop_first());
        assert(counts_of(free, rest) =~= ns.drop_first());
        assert(counts_of(p1.0, rest) =~= ns.drop_first()) by {
            assert forall|i: int| 0 <= i < rest.len() implies p1.0[rest[i]] == free[rest[i]] by {
                assert(rest[i] == others[i + 1]);
                assert(free.contains_key(others[i + 1]) && others[i + 1] != c);
            }
        }
        lemma_release_first_placed(g.0, g.1, start, total, page_size, c, wanted, rest, w3);
    }
}

/// Freeing, in order, the chapters just placed gives back the books as they were.
pub proof fn lemma_release_after_place_all(
    free: Map<usize, usize>,
    used: Map<usize, usize>,
    start: int,
    total: int,
    page_size: int,
    cs: Seq<usize>,
    wanted: int,
)
    requires
        books_wf(free, used, start, total, page_size),
        reaches(counts_of(free, cs), wanted),
        cs.no_duplicates(),
        forall|i: int| 0 <= i < cs.len() ==> free.contains_key(#[trigger] cs[i]),
    ensures
        ({
            let x = place_all(free, used, cs, counts_of(free, cs), wanted, page_size);
            release_all(x.0, x.1, cs, page_size) == (free, used)
        }),
    decreases cs.len(),
{
    if cs.len() > 0 {
        let c = cs[0];
        let rest = cs.drop_first();
        let ns = counts_of(free, cs);
        assert(ns[0] == free[c]);
        lemma_reaches_step(ns, wanted);
        lemma_place_one_wf(free, used, start, total, page_size, c, wanted);
        let w2 = wanted_after(free[c] as int, wanted);
        let p1 = place_one(free, used, c, free[c], wanted, page_size);
        assert forall|i: int| 0 <= i < rest.len() implies free.contains_key(#[trigger] rest[i])
            && p1.0[rest[i]] == free[rest[i]] by {
            assert(rest[i] == cs[i + 1]);
            assert(cs[i + 1] != cs[0]);
        }
        assert(rest.no_duplicates()) by {
            assert forall|i: int, j: int| 0 <= i < j < rest.len() implies rest[i] != rest[j] by {
                assert(rest[i] == cs[i + 1] && rest[j] == cs[j + 1]);
            }
        }
        assert(!rest.contains(c)) by {
            if rest.contains(c) {
                let i = choose|i: int| 0 <= i < rest.len() && rest[i] == c;
                assert(cs[i + 1] == c);
            }
        }
        assert(counts_of(free, rest) =~= ns.drop_first());
        assert(counts_of(p1.0, rest) =~= ns.drop_first());
        lemma_release_first_placed(free, used, start, total, page_size, c, wanted, rest, w2);
        lemma_release_after_place_all(free, used, start, total, page_size, rest, w2);
    }
}


/// Placing chapters marks exactly those chapters as used, whatever the books.
pub proof fn lemma_place_all_used(
    free: Map<usize, usize>,
    used: Map<usize, usize>,
    cs: Seq<usize>,
    ns: Seq<usize>,
    wanted: int,
    page_size: int,
)
    requires
        cs.len() == ns.len(),
    ensures
        place_all(free, used, cs, ns, wanted, page_size).1.dom() == used.dom() + cs.to_set(),
    decreases cs.len(),
{
    if cs.len() == 0 {
        assert(used.dom() + cs.to_set() =~= used.dom());
    } else {
        let (f1, u1) = place_one(free, used, cs[0], ns[0], wanted, page_size);
        let rest = cs.drop_first();
        lemma_place_all_used(f1, u1, rest, ns.drop_first(), wanted_after(ns[0] as int, wanted), page_size);
        assert(u1.dom() == used.dom().insert(cs[0]));
        assert forall|k: usize| cs.to_set().contains(k) <==> (k == cs[0] || rest.to_set().contains(k)) by {
            if cs.to_set().contains(k) {
                let i = choose|i: int| 0 <= i < cs.len() && cs[i] == k;
                if i > 0 {
                    assert(rest[i - 1] == k);
                }
            }
            if rest.to_set().contains(k) {
                let i = choose|i: int| 0 <= i < rest.len() && rest[i] == k;
                assert(cs[i + 1] == k);
            }
            if k == cs[0] {
                assert(cs.to_set().contains(cs[0]));
            }
        }
        assert(used.dom() + cs.to_set() =~= used.dom().insert(cs[0]) + rest.to_set());
    }
}


/// The pages that placing chapters of `ns` pages, in order, marks as used,
/// starting with `wanted` pages wanted.
pub open spec fn taken_pages(ns: Seq<usize>, wanted: int) -> int
    decreases ns.len(),
{
    if ns.len() == 0 {
        0
    } else {
        (if ns[0] > wanted {
            wanted
        } else {
            ns[0] as int
        }) + taken_pages(ns.drop_first(), wanted_after(ns[0] as int, wanted))
    }
}

/// The chapters of `ns` pages reach `wanted` pages at the last one and not
/// before: each chapter but the last holds fewer pages than are still wanted
/// when the walk meets it, and the last holds at least as many.
pub open spec fn reached_at_last(ns: Seq<usize>, wanted: int) -> bool
    decreases ns.len(),
{
    if ns.len() == 0 {
        false
    } else if ns.len() == 1 {
        ns[0] >= wanted
    } else {
        ns[0] < wanted && reached_at_last(ns.drop_first(), wanted - ns[0])
    }
}

/// There are no chapters, or some pages are wanted and the chapters reach
/// them at the last one.
pub open spec fn reaches(ns: Seq<usize>, wanted: int) -> bool {
    ns.len() == 0 || (wanted > 0 && reached_at_last(ns, wanted))
}

/// After the first chapter is placed, the others reach what is still wanted.
pub proof fn lemma_reaches_step(ns: Seq<usize>, wanted: int)
    requires
        reaches(ns, wanted),
        ns.len() > 0,
    ensures
        wanted > 0,
        reaches(ns.drop_first(), wanted_after(ns[0] as int, wanted)),
{
    if ns.len() > 1 {
        assert(ns[0] < wanted);
        assert(wanted_after(ns[0] as int, wanted) == wanted - ns[0]);
    }
}

/// Chapters that reach the wanted pages at the last one are placed so that
/// exactly the wanted pages are taken.
pub proof fn lemma_taken_pages(ns: Seq<usize>, wanted: int)
    requires
        reached_at_last(ns, wanted),
        wanted > 0,
    ensures
        taken_pages(ns, wanted) == wanted,
    decreases ns.len(),
{
    let w = wanted_after(ns[0] as int, wanted);
    let u: int = if ns[0] > wanted { wanted } else { ns[0] as int };
    assert(taken_pages(ns, wanted) == u + taken_pages(ns.drop_first(), w));
    if ns.len() == 1 {
        assert(ns.drop_first().len() == 0);
        assert(taken_pages(ns.drop_first(), w) == 0);
    } else {
        assert(ns.drop_first().len() >= 1);
        assert(ns[0] < wanted);
        assert(w == wanted - ns[0]);
        lemma_taken_pages(ns.drop_first(), wanted - ns[0]);
    }
}

/// Placing distinct free chapters takes `taken_pages` pages from the free
/// pages and marks them used.
pub proof fn lemma_place_all_totals(
    free: Map<usize, usize>,
    used: Map<usize, usize>,
    start: int,
    total: int,
    page_size: int,
    cs: Seq<usize>,
    wanted: int,
)
    requires
        books_wf(free, used, start, total, page_size),
        reaches(counts_of(free, cs), wanted),
        cs.no_duplicates(),
        forall|i: int| 0 <= i < cs.len() ==> free.contains_key(#[trigger] cs[i]),
    ensures
        total_pages(place_all(free, used, cs, counts_of(free, cs), wanted, page_size).1)
            == total_pages(used) + taken_pages(counts_of(free, cs), wanted),
    decreases cs.len(),
{
    if cs.len() > 0 {
        let c = cs[0];
        let ns = counts_of(free, cs);
        let rest = cs.drop_first();
        let n = free[c] as int;
        let w = wanted_after(n, wanted);
        assert(ns[0] == free[c]);
        lemma_reaches_step(ns, wanted);
        lemma_place_one_wf(free, used, start, total, page_size, c, wanted);
        let (f1, u1) = place_one(free, used, c, free[c], wanted, page_size);
        assert(!used.contains_key(c));
        if n > wanted {
            lemma_total_insert(used, c, wanted as usize);
        } else {
            lemma_total_insert(used, c, n as usize);
        }
        assert forall|i: int| 0 <= i < rest.len() implies f1.contains_key(#[trigger] rest[i])
            && f1[rest[i]] == free[rest[i]] by {
            assert(rest[i] == cs[i + 1]);
            assert(cs[i + 1] != cs[0]);
        }
        assert(rest.no_duplicates()) by {
            assert forall|i: int, j: int| 0 <= i < j < rest.len() implies rest[i] != rest[j] by {
                assert(rest[i] == cs[i + 1] && rest[j] == cs[j + 1]);
            }
        }
        assert(ns.drop_first() == counts_of(f1, rest));
        lemma_place_all_totals(f1, u1, start, total, page_size, rest, w);
    }
}


/// Along the chapters below a bound, in address order, the pages below each
/// chapter's end are those below the previous chapter's end and the chapter's own.
pub proof fn lemma_walk_prefix(m: Map<usize, usize>, b: int, i: int)
    requires
        b <= addr_limit(),
        0 <= i < keys_below(m, b).len(),
    ensures
        ({
            let ks = keys_below(m, b);
            pages_below(m, ks[i] + 1) == (if i == 0 {
                0
            } else {
                pages_below(m, ks[i - 1] + 1)
            }) + m[ks[i]]
        }),
{
    let ks = keys_below(m, b);
    lemma_keys_below(m, b);
    let lo: int = if i == 0 { 0 } else { ks[i - 1] + 1 };
    assert forall|k: usize| m.contains_key(k) implies !(lo <= k < ks[i]) by {
        if lo <= k < ks[i] {
            assert(ks.contains(k));
            let t = choose|t: int| 0 <= t < ks.len() && ks[t] == k;
            if t < i {
                if t < i - 1 {
                    assert(ks[t] < ks[i - 1]);
                }
            } else if t > i {
                assert(ks[i] < ks[t]);
            }
        }
    }
    if i == 0 {
        assert(pages_below(m, 0) == 0);
    }
    lemma_below_gap(m, lo, ks[i] as int);
    lemma_below_step(m, ks[i] as int);
}

/// The walk to the stop chapter reaches the wanted pages at its last chapter,
/// from any chapter on.
proof fn lemma_reached_suffix(m: Map<usize, usize>, n: usize, stop: usize, i: int)
    requires
        is_stop_chapter(m, n, stop),
        0 <= i < keys_below(m, stop + 1).len(),
    ensures
        ({
            let ks = keys_below(m, stop + 1);
            reached_at_last(
                counts_of(m, ks).skip(i),
                n - (if i == 0 {
                    0
                } else {
                    pages_below(m, ks[i - 1] + 1)
                }),
            )
        }),
    decreases keys_below(m, stop + 1).len() - i,
{
    let ks = keys_below(m, stop + 1);
    let ns = counts_of(m, ks);
    lemma_keys_below(m, stop + 1);
    lemma_below_step(m, stop as int);
    assert(ks == keys_below(m, stop as int).push(stop));
    assert(ks[ks.len() - 1] == stop);
    lemma_walk_prefix(m, stop + 1, i);
    let before: int = if i == 0 { 0 } else { pages_below(m, ks[i - 1] + 1) };
    assert(ns.skip(i)[0] == m[ks[i]]);
    if i == ks.len() - 1 {
        assert(ns.skip(i).len() == 1);
    } else {
        assert(ks[i] < stop);
        assert(pages_below(m, ks[i] + 1) < n);
        lemma_reached_suffix(m, n, stop, i + 1);
        assert(ns.skip(i).drop_first() == ns.skip(i + 1));
    }
}

/// Where the free pages reach `n > 0`, some chapter is where a walk reaches them.
pub proof fn lemma_stop_chapter_exists(m: Map<usize, usize>, n: usize)
    requires
        n > 0,
        total_pages(m) >= n,
    ensures
        exists|k: usize| is_stop_chapter(m, n, k),
{
    let ks = keys_below(m, addr_limit());
    lemma_keys_below(m, addr_limit());
    if ks.len() == 0 {
        assert forall|k: usize| m.contains_key(k) implies !(0 <= k < addr_limit()) by {
            assert(ks.contains(k));
        }
        lemma_below_gap(m, 0, addr_limit());
    } else {
        let last = ks[ks.len() - 1];
        assert forall|k: usize| m.contains_key(k) implies !(last + 1 <= k < addr_limit()) by {
            assert(ks.contains(k));
            let t = choose|t: int| 0 <= t < ks.len() && ks[t] == k;
            if t < ks.len() - 1 {
                assert(ks[t] < last);
            }
        }
        lemma_below_gap(m, last + 1, addr_limit());
        lemma_stop_chapter_below(m, n, last);
    }
}

/// Where the pages up to chapter `k` reach `n`, a chapter at or below `k` is
/// where a walk reaches them.
proof fn lemma_stop_chapter_below(m: Map<usize, usize>, n: usize, k: usize)
    requires
        m.contains_key(k),
        pages_below(m, k + 1) >= n,
    ensures
        exists|j: usize| is_stop_chapter(m, n, j),
    decreases k,
{
    if exists|j: usize| m.contains_key(j) && j < k && pages_below(m, j + 1) >= n {
        let j = choose|j: usize| m.contains_key(j) && j < k && pages_below(m, j + 1) >= n;
        lemma_stop_chapter_below(m, n, j);
    } else {
        assert(is_stop_chapter(m, n, k));
    }
}

/// The chapters a walk gathers for `n > 0` pages reach them at the last one.
pub proof fn lemma_chapters_reach(m: Map<usize, usize>, n: usize)
    requires
        n > 0,
        total_pages(m) >= n,
    ensures
        reached_at_last(counts_of(m, chapters_for(m, n)), n as int),
{
    lemma_stop_chapter_exists(m, n);
    let stop = choose|k: usize| is_stop_chapter(m, n, k);
    assert(chapters_for(m, n) == keys_below(m, stop + 1));
    lemma_keys_below(m, stop + 1);
    assert(keys_below(m, stop + 1).contains(stop));
    lemma_reached_suffix(m, n, stop, 0);
    assert(counts_of(m, keys_below(m, stop + 1)).skip(0) == counts_of(m, keys_below(m, stop + 1)));
}


/// The addresses that the chapters of `m` cover.
pub open spec fn covered(m: Map<usize, usize>, page_size: int) -> Set<int> {
    Set::new(|x: int| exists|k: usize| #[trigger] m.contains_key(k) && k <= x < k + m[k] * page_size)
}

/// The addresses of `n` pages at `p`.
pub open spec fn span(p: int, n: int, page_size: int) -> Set<int> {
    Set::new(|x: int| p <= x < p + n * page_size)
}

/// Freeing a used chapter covers with free chapters exactly the addresses the
/// free chapters covered before and those of the freed chapter, and adds its
/// pages to the free pages.
pub proof fn lemma_release_one_covers(
    free: Map<usize, usize>,
    used: Map<usize, usize>,
    start: int,
    total: int,
    page_size: int,
    p: usize,
)
    requires
        books_wf(free, used, start, total, page_size),
        used.contains_key(p),
    ensures
        covered(coalesced(free, p, used[p], page_size), page_size) == covered(free, page_size)
            + span(p as int, used[p] as int, page_size),
        total_pages(coalesced(free, p, used[p], page_size)) == total_pages(free) + used[p],
{
    let n = used[p] as int;
    let hp = has_prev_chapter(free, page_size, p as int);
    let hn = has_next_chapter(free, p, used[p], page_size);
    let s = merged_start(free, p, page_size);
    let prev = prev_chapter(free, page_size, p as int);
    let nxt = end_addr(p as int, n, page_size) as usize;
    let pn: int = if hp { free[prev] as int } else { 0 };
    let nn: int = if hn { free[nxt] as int } else { 0 };
    let m = merged_count(free, p, used[p], page_size);
    let e = p + n * page_size + nn * page_size;
    lemma_release_one_wf(free, used, start, total, page_size, p);
    lemma_prev_chapter(free, used, start, total, page_size, p as int);
    lemma_span_positive(n, page_size);
    assert(!free.contains_key(p));
    assert(m == n + pn + nn);
    lemma_scale_sum(n, pn, nn, page_size);
    if hp {
        assert(s == prev);
        assert(prev + pn * page_size == p);
    } else {
        assert(s == p);
    }
    if hn {
        assert(nxt == p + n * page_size);
    }
    assert(s + m * page_size == e);
    assert(nn * page_size >= 0) by (nonlinear_arith)
        requires
            nn >= 0,
            page_size > 0,
    ;
    assert(hp && hn ==> prev != nxt);
    let f1 = if hp { free.remove(s) } else { free };
    let f2 = if hn { f1.remove(nxt) } else { f1 };
    let f3 = coalesced(free, p, used[p], page_size);
    assert(f3 == f2.insert(s, m as usize));
    assert(!f2.contains_key(s));
    // The pages: the neighbours leave, the merged chapter comes in.
    if hp {
        lemma_total_remove(free, s);
    }
    if hn {
        lemma_total_remove(f1, nxt);
    }
    lemma_total_insert(f2, s, m as usize);
    // Every other chapter keeps its size.
    assert forall|k: usize| #[trigger] f2.contains_key(k) implies free.contains_key(k) && f2[k] == free[k]
        && k != s by {}
    assert forall|k: usize| #[trigger] free.contains_key(k) && !f2.contains_key(k) implies (hp && k == prev)
        || (hn && k == nxt) by {}
    let c_new = covered(f3, page_size);
    let c_old = covered(free, page_size);
    let sp = span(p as int, n, page_size);
    assert forall|x: int| c_new.contains(x) implies (c_old + sp).contains(x) by {
        let k = choose|k: usize| #[trigger] f3.contains_key(k) && k <= x < k + f3[k] * page_size;
        if k == s {
            if x < p {
                assert(hp);
                assert(free.contains_key(prev) && prev <= x < prev + free[prev] * page_size);
                assert(c_old.contains(x));
            } else if x < p + n * page_size {
                assert(sp.contains(x));
            } else {
                assert(hn);
                assert(free.contains_key(nxt) && nxt <= x < nxt + free[nxt] * page_size);
                assert(c_old.contains(x));
            }
        } else {
            assert(f2.contains_key(k));
            assert(free.contains_key(k) && k <= x < k + free[k] * page_size);
            assert(c_old.contains(x));
        }
    }
    assert forall|x: int| (c_old + sp).contains(x) implies c_new.contains(x) by {
        assert(f3.contains_key(s) && f3[s] == m as usize);
        if sp.contains(x) {
            assert(s <= x < s + f3[s] * page_size);
        } else {
            let k = choose|k: usize| #[trigger] free.contains_key(k) && k <= x < k + free[k] * page_size;
            if f2.contains_key(k) {
                assert(f3.contains_key(k) && f3[k] == free[k]);
                assert(k <= x < k + f3[k] * page_size);
            } else if hp && k == prev {
                assert(s <= x < s + f3[s] * page_size);
            } else {
                assert(hn && k == nxt);
                assert(s <= x < s + f3[s] * page_size);
            }
        }
    }
    assert(c_new =~= c_old + sp);
}


/// `u` is `used` with a zero-page chapter added at each of `cs`.
pub open spec fn with_empty_chapters(used: Map<usize, usize>, cs: Seq<usize>) -> Map<usize, usize> {
    used.union_prefer_right(Map::new(|k: usize| cs.contains(k), |k: usize| 0usize))
}

/// Placing distinct free chapters, none of them used, while no pages are
/// wanted leaves the free chapters as they are and records each placed
/// chapter as a used chapter of no pages.
pub proof fn lemma_place_all_nothing_wanted(
    free: Map<usize, usize>,
    used: Map<usize, usize>,
    cs: Seq<usize>,
    page_size: int,
)
    requires
        cs.no_duplicates(),
        forall|i: int| 0 <= i < cs.len() ==> free.contains_key(#[trigger] cs[i]) && free[cs[i]] > 0,
        forall|i: int| 0 <= i < cs.len() ==> !used.contains_key(#[trigger] cs[i]),
    ensures
        place_all(free, used, cs, counts_of(free, cs), 0, page_size).0 == free,
        place_all(free, used, cs, counts_of(free, cs), 0, page_size).1 == with_empty_chapters(used, cs),
        total_pages(with_empty_chapters(used, cs)) == total_pages(used),
    decreases cs.len(),
{
    if cs.len() == 0 {
        assert(with_empty_chapters(used, cs) =~= used);
    } else {
        let c = cs[0];
        let rest = cs.drop_first();
        let ns = counts_of(free, cs);
        assert(ns[0] == free[c]);
        let (f1, u1) = place_one(free, used, c, free[c], 0, page_size);
        assert(f1 =~= free);
        assert(u1 == used.insert(c, 0));
        assert(wanted_after(ns[0] as int, 0) == 0);
        assert(counts_of(free, rest) =~= ns.drop_first());
        assert forall|i: int| 0 <= i < rest.len() implies !u1.contains_key(#[trigger] rest[i]) by {
            assert(rest[i] == cs[i + 1]);
            assert(cs[i + 1] != cs[0]);
        }
        assert(rest.no_duplicates()) by {
            assert forall|i: int, j: int| 0 <= i < j < rest.len() implies rest[i] != rest[j] by {
                assert(rest[i] == cs[i + 1] && rest[j] == cs[j + 1]);
            }
        }
        lemma_place_all_nothing_wanted(free, u1, rest, page_size);
        assert(with_empty_chapters(u1, rest) =~= with_empty_chapters(used, cs)) by {
            assert forall|k: usize| cs.contains(k) <==> (k == c || rest.contains(k)) by {
                if cs.contains(k) {
                    let i = choose|i: int| 0 <= i < cs.len() && cs[i] == k;
                    if i > 0 {
                        assert(rest[i - 1] == k);
                    }
                }
                if rest.contains(k) {
                    let i = choose|i: int| 0 <= i < rest.len() && rest[i] == k;
                    assert(cs[i + 1] == k);
                }
                if k == c {
                    assert(cs[0] == k);
                }
            }
        }
        lemma_total_insert(used, c, 0);
    }
}

/// Freeing zero-page used chapters that start free chapters, where no two
/// free chapters touch, leaves the free chapters as they are and forgets the
/// freed ones.
pub proof fn lemma_release_all_empty(
    free: Map<usize, usize>,
    used: Map<usize, usize>,
    cs: Seq<usize>,
    page_size: int,
)
    requires
        cs.no_duplicates(),
        free_not_adjacent(free, page_size),
        forall|k: usize| #[trigger] free.contains_key(k) ==> k + free[k] * page_size <= usize::MAX,
        forall|i: int| 0 <= i < cs.len() ==> free.contains_key(#[trigger] cs[i]),
        forall|i: int| 0 <= i < cs.len() ==> used.contains_key(#[trigger] cs[i]) && used[cs[i]] == 0,
    ensures
        release_all(free, used, cs, page_size) == (free, used.remove_keys(cs.to_set())),
    decreases cs.len(),
{
    if cs.len() == 0 {
        assert(used.remove_keys(cs.to_set()) =~= used);
    } else {
        let c = cs[0];
        let rest = cs.drop_first();
        assert(free.contains_key(c) && used[c] == 0);
        assert(!has_prev_chapter(free, page_size, c as int)) by {
            if has_prev_chapter(free, page_size, c as int) {
                let k = choose|k: usize| ends_at(free, page_size, k, c as int);
                assert(free.contains_key(k) && free.contains_key(c));
            }
        }
        assert(c + 0 * page_size == c);
        assert(has_next_chapter(free, c, 0, page_size));
        assert(coalesced(free, c, 0, page_size) =~= free);
        let u1 = used.remove(c);
        assert forall|i: int| 0 <= i < rest.len() implies u1.contains_key(#[trigger] rest[i]) && u1[rest[i]] == 0 by {
            assert(rest[i] == cs[i + 1]);
            assert(cs[i + 1] != cs[0]);
        }
        assert(rest.no_duplicates()) by {
            assert forall|i: int, j: int| 0 <= i < j < rest.len() implies rest[i] != rest[j] by {
                assert(rest[i] == cs[i + 1] && rest[j] == cs[j + 1]);
            }
        }
        lemma_release_all_empty(free, u1, rest, page_size);
        assert(u1.remove_keys(rest.to_set()) =~= used.remove_keys(cs.to_set())) by {
            assert forall|k: usize| cs.to_set().contains(k) <==> (k == c || rest.to_set().contains(k)) by {
                if cs.to_set().contains(k) {
                    let i = choose|i: int| 0 <= i < cs.len() && cs[i] == k;
                    if i > 0 {
                        assert(rest[i - 1] == k);
                    }
                }
                if rest.to_set().contains(k) {
                    let i = choose|i: int| 0 <= i < rest.len() && rest[i] == k;
                    assert(cs[i + 1] == k);
                }
                if k == c {
                    assert(cs[0] == k);
                }
            }
        }
    }
}

/// Placing chapters changes the used chapters only at the placed ones.
pub proof fn lemma_place_all_keeps_others(
    free: Map<usize, usize>,
    used: Map<usize, usize>,
    cs: Seq<usize>,
    ns: Seq<usize>,
    wanted: int,
    page_size: int,
    k: usize,
)
    requires
        !cs.contains(k),
    ensures
        place_all(free, used, cs, ns, wanted, page_size).1.contains_key(k) == used.contains_key(k),
        place_all(free, used, cs, ns, wanted, page_size).1[k] == used[k],
    decreases cs.len(),
{
    if cs.len() > 0 && ns.len() > 0 {
        let (f1, u1) = place_one(free, used, cs[0], ns[0], wanted, page_size);
        assert(k != cs[0]);
        assert(!cs.drop_first().contains(k)) by {
            if cs.drop_first().contains(k) {
                let i = choose|i: int| 0 <= i < cs.drop_first().len() && cs.drop_first()[i] == k;
                assert(cs[i + 1] == k);
            }
        }
        lemma_place_all_keeps_others(
            f1,
            u1,
            cs.drop_first(),
            ns.drop_first(),
            wanted_after(ns[0] as int, wanted),
            page_size,
            k,
        );
    }
}

/// Placing distinct chapters records at them, together, the pages taken.
pub proof fn lemma_pages_at_placed(
    free: Map<usize, usize>,
    used: Map<usize, usize>,
    cs: Seq<usize>,
    ns: Seq<usize>,
    wanted: int,
    page_size: int,
)
    requires
        cs.no_duplicates(),
        cs.len() == ns.len(),
        wanted >= 0,
    ensures
        pages_at(place_all(free, used, cs, ns, wanted, page_size).1, cs) == taken_pages(ns, wanted),
    decreases cs.len(),
{
    if cs.len() > 0 {
        let c = cs[0];
        let rest = cs.drop_first();
        let w = wanted_after(ns[0] as int, wanted);
        let (f1, u1) = place_one(free, used, c, ns[0], wanted, page_size);
        let placed = place_all(free, used, cs, ns, wanted, page_size);
        assert(placed == place_all(f1, u1, rest, ns.drop_first(), w, page_size));
        assert(!rest.contains(c)) by {
            if rest.contains(c) {
                let i = choose|i: int| 0 <= i < rest.len() && rest[i] == c;
                assert(cs[i + 1] == c);
            }
        }
        assert(rest.no_duplicates()) by {
            assert forall|i: int, j: int| 0 <= i < j < rest.len() implies rest[i] != rest[j] by {
                assert(rest[i] == cs[i + 1] && rest[j] == cs[j + 1]);
            }
        }
        lemma_place_all_keeps_others(f1, u1, rest, ns.drop_first(), w, page_size, c);
        lemma_pages_at_placed(f1, u1, rest, ns.drop_first(), w, page_size);
        assert(u1[c] == if ns[0] > wanted { wanted } else { ns[0] as int });
    }
}

/// Free chapters on their own are consistent for pages of `page_size` bytes:
/// each holds at least one page and ends within the machine's range, no two
/// overlap, and no two touch.
pub open spec fn free_chapters_wf(free: Map<usize, usize>, page_size: int) -> bool {
    &&& page_size > 0
    &&& forall|k: usize| #[trigger] free.contains_key(k) ==> free[k] > 0 && k + free[k] * page_size <= usize::MAX
    &&& chapters_apart(free, free, page_size)
    &&& free_not_adjacent(free, page_size)
}

/// Among free chapters that do not overlap, at most one ends at a given
/// address, and when one does it is the one `prev_chapter` names.
pub proof fn lemma_prev_chapter_free(free: Map<usize, usize>, page_size: int, p: int)
    requires
        free_chapters_wf(free, page_size),
    ensures
        has_prev_chapter(free, page_size, p) ==> is_prev_chapter(
            free,
            page_size,
            p,
            prev_chapter(free, page_size, p),
        ),
{
    assert forall|a: usize, b: usize|
        ends_at(free, page_size, a, p) && ends_at(free, page_size, b, p) implies a == b by {
        if a != b {
            assert(apart(a as int, free[a] as int, b as int, free[b] as int, page_size));
            lemma_span_positive(free[a] as int, page_size);
            lemma_span_positive(free[b] as int, page_size);
        }
    }
    if has_prev_chapter(free, page_size, p) {
        let k = choose|k: usize| ends_at(free, page_size, k, p);
        assert(is_prev_chapter(free, page_size, p, k));
    }
}

/// Merging `n > 0` pages at `p`, apart from every free chapter, into free
/// chapters that are consistent on their own keeps them consistent, adds
/// exactly `n` pages, and covers exactly the old addresses and those of the
/// pages; the merged chapter's page count fits the machine.
pub proof fn lemma_coalesce_free(free: Map<usize, usize>, p: usize, n: usize, page_size: int)
    requires
        free_chapters_wf(free, page_size),
        n > 0,
        p + n * page_size <= usize::MAX,
        forall|k: usize| #[trigger] free.contains_key(k) ==> apart(k as int, free[k] as int, p as int, n as int, page_size),
    ensures
        merged_count(free, p, n, page_size) <= usize::MAX,
        free_chapters_wf(coalesced(free, p, n, page_size), page_size),
        total_pages(coalesced(free, p, n, page_size)) == total_pages(free) + n,
        covered(coalesced(free, p, n, page_size), page_size) == covered(free, page_size) + span(
            p as int,
            n as int,
            page_size,
        ),
{
    let ni = n as int;
    let hp = has_prev_chapter(free, page_size, p as int);
    let hn = has_next_chapter(free, p, n, page_size);
    let s = merged_start(free, p, page_size);
    let prev = prev_chapter(free, page_size, p as int);
    let nxt = end_addr(p as int, ni, page_size) as usize;
    let pn: int = if hp { free[prev] as int } else { 0 };
    let nn: int = if hn { free[nxt] as int } else { 0 };
    let m = merged_count(free, p, n, page_size);
    let e = p + ni * page_size + nn * page_size;
    lemma_prev_chapter_free(free, page_size, p as int);
    lemma_span_positive(ni, page_size);
    assert(!free.contains_key(p)) by {
        if free.contains_key(p) {
            lemma_span_positive(free[p] as int, page_size);
        }
    }
    assert(m == ni + pn + nn);
    lemma_scale_sum(ni, pn, nn, page_size);
    if hp {
        lemma_span_positive(pn, page_size);
        assert(s == prev);
        assert(prev + pn * page_size == p);
    } else {
        assert(s == p);
    }
    if hn {
        lemma_span_positive(nn, page_size);
        assert(nxt == p + ni * page_size);
        assert(e == nxt + free[nxt] * page_size);
    }
    assert(s + m * page_size == e);
    assert(e <= usize::MAX);
    lemma_span_positive(m, page_size);
    assert(hp && hn ==> prev != nxt);
    let f1 = if hp { free.remove(s) } else { free };
    let f2 = if hn { f1.remove(nxt) } else { f1 };
    let f3 = coalesced(free, p, n, page_size);
    assert(f3 == f2.insert(s, m as usize));
    assert(!f2.contains_key(s));
    if hp {
        lemma_total_remove(free, s);
    }
    if hn {
        lemma_total_remove(f1, nxt);
    }
    lemma_total_insert(f2, s, m as usize);
    assert forall|k: usize| #[trigger] f2.contains_key(k) implies free.contains_key(k) && f2[k] == free[k]
        && k != s by {}
    assert forall|k: usize| #[trigger] free.contains_key(k) && !f2.contains_key(k) implies (hp && k == prev)
        || (hn && k == nxt) by {}
    // Every other chapter lies apart from the pages and both neighbours, hence
    // apart from the merged chapter.
    assert forall|b: usize| #[trigger] f2.contains_key(b) implies apart(s as int, m, b as int, f2[b] as int, page_size) by {
        let nb = f2[b] as int;
        lemma_span_positive(nb, page_size);
        assert(apart(b as int, nb, p as int, ni, page_size));
        if hp {
            assert(apart(b as int, nb, prev as int, pn, page_size));
        }
        if hn {
            assert(apart(b as int, nb, nxt as int, nn, page_size));
        }
    }
    assert forall|k: usize| #[trigger] f3.contains_key(k) implies f3[k] > 0 && k + f3[k] * page_size <= usize::MAX by {
        if k != s {
            assert(f2.contains_key(k));
        }
    }
    assert forall|a: usize, b: usize|
        #[trigger] f3.contains_key(a) && #[trigger] f3.contains_key(b) && a != b implies apart(
        a as int,
        f3[a] as int,
        b as int,
        f3[b] as int,
        page_size,
    ) by {
        if a == s {
            assert(f2.contains_key(b));
        } else if b == s {
            assert(f2.contains_key(a));
            assert(apart(s as int, m, a as int, f3[a] as int, page_size));
        } else {
            assert(f2.contains_key(a) && f2.contains_key(b));
        }
    }
    assert forall|a: usize, b: usize|
        #[trigger] f3.contains_key(a) && #[trigger] f3.contains_key(b) implies b != a + f3[a]
        * page_size by {
        if a == s {
            if b != s {
                assert(f2.contains_key(b));
                if hn {
                    assert(b != nxt + free[nxt] * page_size);
                } else {
                    assert(!free.contains_key(nxt));
                }
            }
        } else if b == s {
            assert(f2.contains_key(a));
            if hp {
                assert(prev != a + free[a] * page_size);
            } else {
                assert(!ends_at(free, page_size, a, p as int));
            }
        } else {
            assert(f2.contains_key(a) && f2.contains_key(b));
        }
    }
    let c_new = covered(f3, page_size);
    let c_old = covered(free, page_size);
    let sp = span(p as int, ni, page_size);
    assert forall|x: int| c_new.contains(x) implies (c_old + sp).contains(x) by {
        let k = choose|k: usize| #[trigger] f3.contains_key(k) && k <= x < k + f3[k] * page_size;
        if k == s {
            if x < p {
                assert(hp);
                assert(free.contains_key(prev) && prev <= x < prev + free[prev] * page_size);
                assert(c_old.contains(x));
            } else if x < p + ni * page_size {
                assert(sp.contains(x));
            } else {
                assert(hn);
                assert(free.contains_key(nxt) && nxt <= x < nxt + free[nxt] * page_size);
                assert(c_old.contains(x));
            }
        } else {
            assert(f2.contains_key(k));
            assert(free.contains_key(k) && k <= x < k + free[k] * page_size);
            assert(c_old.contains(x));
        }
    }
    assert forall|x: int| (c_old + sp).contains(x) implies c_new.contains(x) by {
        assert(f3.contains_key(s) && f3[s] == m as usize);
        if sp.contains(x) {
            assert(s <= x < s + f3[s] * page_size);
        } else {
            let k = choose|k: usize| #[trigger] free.contains_key(k) && k <= x < k + free[k] * page_size;
            if f2.contains_key(k) {
                assert(f3.contains_key(k) && f3[k] == free[k]);
                assert(k <= x < k + f3[k] * page_size);
            } else if hp && k == prev {
                assert(s <= x < s + f3[s] * page_size);
            } else {
                assert(hn && k == nxt);
                assert(s <= x < s + f3[s] * page_size);
            }
        }
    }
    assert(c_new =~= c_old + sp);
}

/// Free chapters that each hold at least one page, end within the machine's
/// range and do not overlap.
pub open spec fn free_chapters_apart(free: Map<usize, usize>, page_size: int) -> bool {
    &&& page_size > 0
    &&& forall|k: usize| #[trigger] free.contains_key(k) ==> free[k] > 0 && k + free[k] * page_size <= usize::MAX
    &&& chapters_apart(free, free, page_size)
}

/// Placing distinct free chapters, none of them used, among free chapters that
/// do not overlap moves pages between the free and used chapters and neither
/// makes nor loses any, whatever is wanted.
pub proof fn lemma_place_all_conserves(
    free: Map<usize, usize>,
    used: Map<usize, usize>,
    cs: Seq<usize>,
    wanted: int,
    page_size: int,
)
    requires
        free_chapters_apart(free, page_size),
        cs.no_duplicates(),
        forall|i: int| 0 <= i < cs.len() ==> free.contains_key(#[trigger] cs[i]),
        forall|i: int| 0 <= i < cs.len() ==> !used.contains_key(#[trigger] cs[i]),
        wanted >= 0,
    ensures
        ({
            let placed = place_all(free, used, cs, counts_of(free, cs), wanted, page_size);
            total_pages(placed.0) + total_pages(placed.1) == total_pages(free) + total_pages(used)
        }),
    decreases cs.len(),
{
    if cs.len() > 0 {
        let c = cs[0];
        let n = free[c] as int;
        let ns = counts_of(free, cs);
        let rest = cs.drop_first();
        assert(ns[0] == free[c]);
        let (f1, u1) = place_one(free, used, c, free[c], wanted, page_size);
        let w2 = wanted_after(n, wanted);
        lemma_total_remove(free, c);
        assert(!used.contains_key(c));
        lemma_span_positive(n, page_size);
        // The keys other than `c` that the free chapters keep, with their sizes.
        let r = (c + wanted * page_size) as usize;
        if n > wanted {
            lemma_total_insert(used, c, wanted as usize);
            if wanted == 0 {
                assert(r == c);
                assert(f1 =~= free);
            } else {
                lemma_split_sizes(wanted, n, page_size);
                assert(c < r < c + n * page_size);
                assert(!free.contains_key(r)) by {
                    if free.contains_key(r) {
                        assert(apart(c as int, n, r as int, free[r] as int, page_size));
                        lemma_span_positive(free[r] as int, page_size);
                    }
                }
                lemma_total_insert(free.remove(c), r, (n - wanted) as usize);
                assert(f1 == free.remove(c).insert(r, (n - wanted) as usize));
                assert forall|a: usize, b: usize|
                    #[trigger] f1.contains_key(a) && #[trigger] f1.contains_key(b) && a != b implies apart(
                    a as int,
                    f1[a] as int,
                    b as int,
                    f1[b] as int,
                    page_size,
                ) by {
                    if a == r {
                        assert(apart(c as int, n, b as int, free[b] as int, page_size));
                    } else if b == r {
                        assert(apart(a as int, free[a] as int, c as int, n, page_size));
                    }
                }
            }
        } else {
            lemma_total_insert(used, c, n as usize);
            assert(f1 == free.remove(c));
        }
        assert(free_chapters_apart(f1, page_size));
        assert forall|i: int| 0 <= i < rest.len() implies f1.contains_key(#[trigger] rest[i])
            && f1[rest[i]] == free[rest[i]] && !u1.contains_key(rest[i]) by {
            assert(rest[i] == cs[i + 1]);
            assert(cs[i + 1] != cs[0]);
            let k = rest[i];
            if n > wanted && wanted > 0 {
                assert(k != r) by {
                    assert(apart(c as int, n, k as int, free[k] as int, page_size));
                    lemma_span_positive(free[k] as int, page_size);
                }
            }
        }
        assert(rest.no_duplicates()) by {
            assert forall|i: int, j: int| 0 <= i < j < rest.len() implies rest[i] != rest[j] by {
                assert(rest[i] == cs[i + 1] && rest[j] == cs[j + 1]);
            }
        }
        assert(counts_of(f1, rest) =~= ns.drop_first());
        lemma_place_all_conserves(f1, u1, rest, w2, page_size);
    }
}

/// Chapters that end within the machine's range are split within it.
pub proof fn lemma_place_fits(cs: Seq<usize>, ns: Seq<usize>, wanted: int, page_size: int)
    requires
        cs.len() == ns.len(),
        wanted >= 0,
        page_size > 0,
        forall|i: int| 0 <= i < cs.len() ==> cs[i] + ns[i] * page_size <= usize::MAX,
    ensures
        place_fits(cs, ns, wanted, page_size),
    decreases cs.len(),
{
    if cs.len() > 0 {
        if ns[0] > wanted {
            assert(wanted * page_size <= ns[0] * page_size) by (nonlinear_arith)
                requires
                    0 <= wanted <= ns[0],
                    page_size > 0,
            ;
        }
        assert forall|i: int| 0 <= i < cs.drop_first().len() implies cs.drop_first()[i] + ns.drop_first()[i]
            * page_size <= usize::MAX by {
            assert(cs.drop_first()[i] == cs[i + 1] && ns.drop_first()[i] == ns[i + 1]);
        }
        lemma_place_fits(cs.drop_first(), ns.drop_first(), wanted_after(ns[0] as int, wanted), page_size);
    }
}

/// Free pages whose total fits the machine are gathered within its range.
pub proof fn lemma_walk_fits(m: Map<usize, usize>, n: usize)
    requires
        total_pages(m) <= usize::MAX,
    ensures
        walk_fits(m, n),
{
    assert forall|k: usize| #[trigger] m.contains_key(k) && pages_below(m, k as int) < n implies pages_below(m, k + 1)
        <= usize::MAX by {
        lemma_below_monotone(m, k + 1, addr_limit());
    }
}

} // verus!
