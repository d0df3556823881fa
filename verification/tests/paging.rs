use std::collections::BTreeMap;

use rust_hypervisor::exec::EcdBase;
use rust_hypervisor::rust_hypervisor::hypervisor::{RustHypervisor, INVALID_CPU_ID};
use rust_hypervisor::rust_hypervisor::paging::declarations::{
    num_pages, CANNOT_FIND_ADDRESS, NOT_ENOUGH_MEMORY,
};
use rust_hypervisor::rust_hypervisor::paging::listing::{
    chapter_lines, phys_page_lines, virt_page_lines, ChapterLine,
};
use rust_hypervisor::rust_hypervisor::paging::phys_book::PhysBook;
use rust_hypervisor::rust_hypervisor::paging::{
    alloc_fits_now, alloc_pages, coalesce, free, paging_init, place_chapters,
};
use rust_hypervisor::rust_hypervisor::setup::hv_init;
use rust_hypervisor::user_space_arch::arch::AcdUserLevel;

const START: usize = 4096;

fn map_of(entries: &[(usize, usize)]) -> BTreeMap<usize, usize> {
    entries.iter().cloned().collect()
}

fn new_hypervisor() -> RustHypervisor<AcdUserLevel, EcdBase> {
    let mut hv: RustHypervisor<AcdUserLevel, EcdBase> = RustHypervisor::new();
    hv.rust_hypervisor_paging.arch_paging_struct.hv_mem_start = START;
    assert_eq!(hv_init(&mut hv, 0), Ok(()));
    hv
}

fn free_map(hv: &RustHypervisor<AcdUserLevel, EcdBase>) -> BTreeMap<usize, usize> {
    (*hv.rust_hypervisor_paging.phys_book.free_pages).clone()
}

fn used_map(hv: &RustHypervisor<AcdUserLevel, EcdBase>) -> BTreeMap<usize, usize> {
    (*hv.rust_hypervisor_paging.phys_book.used_pages).clone()
}

#[test]
fn num_pages_rounds_up() {
    assert_eq!(num_pages(10, 4), 3);
    assert_eq!(num_pages(8, 4), 2);
    assert_eq!(num_pages(0, 4), 0);
    assert_eq!(num_pages(1, 1), 1);
    assert_eq!(num_pages(4097, 4096), 2);
}

#[test]
fn new_hypervisor_is_uninitialized() {
    let hv: RustHypervisor<AcdUserLevel, EcdBase> = RustHypervisor::new();
    assert_eq!(hv.page_size, 0);
    assert_eq!(hv.hv_cpu_id, INVALID_CPU_ID);
    assert!(hv.rust_hypervisor_paging.phys_book.free_pages.is_empty());
    assert_eq!(hv.rust_hypervisor_paging.arch_paging_struct.curr_virt_addr, 1);
    assert_eq!(hv.rust_hypervisor_header._max_cpus, 1);
}

#[test]
fn init_makes_one_free_chapter() {
    let hv = new_hypervisor();
    assert_eq!(hv.page_size, 1);
    assert_eq!(hv.hv_cpu_id, 0);
    assert_eq!(hv.rust_hypervisor_paging.phys_book.num_total_pages, 512);
    assert_eq!(hv.rust_hypervisor_paging.phys_book.mem_start, START);
    assert_eq!(free_map(&hv), map_of(&[(START, 512)]));
    assert!(used_map(&hv).is_empty());
}

#[test]
fn second_init_changes_nothing() {
    let mut hv = new_hypervisor();
    alloc_pages(&mut hv, 5, false).unwrap();
    assert_eq!(hv_init(&mut hv, 3), Ok(()));
    assert_eq!(hv.hv_cpu_id, 0);
    assert_eq!(free_map(&hv), map_of(&[(START + 5, 507)]));
}

#[test]
fn paging_init_uses_page_size() {
    let mut hv: RustHypervisor<AcdUserLevel, EcdBase> = RustHypervisor::new();
    hv.page_size = 4;
    hv.rust_hypervisor_paging.arch_paging_struct.hv_mem_start = START;
    assert_eq!(paging_init(&mut hv), Ok(()));
    assert_eq!(hv.rust_hypervisor_paging.arch_paging_struct.page_size, 4);
    assert_eq!(hv.rust_hypervisor_paging.phys_book.num_total_pages, 128);
    assert_eq!(free_map(&hv), map_of(&[(START, 128)]));
}

#[test]
fn alloc_takes_first_fit() {
    let mut hv = new_hypervisor();
    assert_eq!(alloc_pages(&mut hv, 10, false), Ok(1));
    assert_eq!(used_map(&hv), map_of(&[(START, 10)]));
    assert_eq!(free_map(&hv), map_of(&[(START + 10, 502)]));
    assert_eq!(hv.rust_hypervisor_paging.arch_paging_struct.curr_virt_addr, 11);
    assert_eq!(alloc_pages(&mut hv, 3, false), Ok(11));
    assert_eq!(used_map(&hv), map_of(&[(START, 10), (START + 10, 3)]));
    let virt = &hv.rust_hypervisor_paging.virt_book;
    assert_eq!(virt.virt_page_mapping.get(&11), Some(&(3, vec![START + 10])));
    assert_eq!(virt.phys_page_mapping.get(&START), Some(&(10, 1)));
}

#[test]
fn alloc_whole_memory_leaves_nothing_free() {
    let mut hv = new_hypervisor();
    assert_eq!(alloc_pages(&mut hv, 512, false), Ok(1));
    assert!(free_map(&hv).is_empty());
    assert_eq!(used_map(&hv), map_of(&[(START, 512)]));
    assert_eq!(alloc_pages(&mut hv, 1, false), Err(NOT_ENOUGH_MEMORY));
    assert_eq!(alloc_pages(&mut hv, 1, true), Err(NOT_ENOUGH_MEMORY));
}

#[test]
fn alloc_too_large_fails_and_changes_nothing() {
    let mut hv = new_hypervisor();
    assert_eq!(alloc_pages(&mut hv, 513, false), Err(NOT_ENOUGH_MEMORY));
    assert_eq!(alloc_pages(&mut hv, 513, true), Err(NOT_ENOUGH_MEMORY));
    assert_eq!(free_map(&hv), map_of(&[(START, 512)]));
    assert!(used_map(&hv).is_empty());
    assert_eq!(hv.rust_hypervisor_paging.arch_paging_struct.curr_virt_addr, 1);
}

#[test]
fn free_undoes_alloc() {
    let mut hv = new_hypervisor();
    let a = alloc_pages(&mut hv, 20, false).unwrap();
    let before_free = free_map(&hv);
    let before_used = used_map(&hv);
    let b = alloc_pages(&mut hv, 7, false).unwrap();
    assert_eq!(free(&mut hv, b), Ok(()));
    assert_eq!(free_map(&hv), before_free);
    assert_eq!(used_map(&hv), before_used);
    assert_eq!(free(&mut hv, a), Ok(()));
    assert_eq!(free_map(&hv), map_of(&[(START, 512)]));
    assert!(used_map(&hv).is_empty());
    assert!(hv.rust_hypervisor_paging.virt_book.virt_page_mapping.is_empty());
    assert!(hv.rust_hypervisor_paging.virt_book.phys_page_mapping.is_empty());
}

#[test]
fn free_unknown_address_fails() {
    let mut hv = new_hypervisor();
    let a = alloc_pages(&mut hv, 4, false).unwrap();
    assert_eq!(free(&mut hv, a + 1), Err(CANNOT_FIND_ADDRESS));
    assert_eq!(free(&mut hv, a), Ok(()));
    assert_eq!(free(&mut hv, a), Err(CANNOT_FIND_ADDRESS));
}

#[test]
fn free_merges_with_both_neighbours() {
    let mut hv = new_hypervisor();
    let a = alloc_pages(&mut hv, 10, false).unwrap();
    let b = alloc_pages(&mut hv, 10, false).unwrap();
    let c = alloc_pages(&mut hv, 10, false).unwrap();
    assert_eq!(free(&mut hv, a), Ok(()));
    assert_eq!(free_map(&hv), map_of(&[(START, 10), (START + 30, 482)]));
    assert_eq!(free(&mut hv, b), Ok(()));
    assert_eq!(free_map(&hv), map_of(&[(START, 20), (START + 30, 482)]));
    assert_eq!(free(&mut hv, c), Ok(()));
    assert_eq!(free_map(&hv), map_of(&[(START, 512)]));
}

/// Leaves free chapters of `first` and `second` pages with one used page
/// between them, and the rest of the memory used.
fn two_gaps(hv: &mut RustHypervisor<AcdUserLevel, EcdBase>, first: usize, second: usize) {
    let a = alloc_pages(hv, first, false).unwrap();
    alloc_pages(hv, 1, false).unwrap();
    let c = alloc_pages(hv, second, false).unwrap();
    alloc_pages(hv, 512 - first - 1 - second, false).unwrap();
    free(hv, a).unwrap();
    free(hv, c).unwrap();
}

#[test]
fn hierarchical_alloc_spans_chapters() {
    let mut hv = new_hypervisor();
    two_gaps(&mut hv, 100, 300);
    assert_eq!(alloc_pages(&mut hv, 350, false), Err(NOT_ENOUGH_MEMORY));
    let v = alloc_pages(&mut hv, 350, true).unwrap();
    assert_eq!(
        hv.rust_hypervisor_paging.virt_book.virt_page_mapping.get(&v),
        Some(&(350, vec![START, START + 101]))
    );
    assert_eq!(used_map(&hv).get(&START), Some(&100));
    assert_eq!(used_map(&hv).get(&(START + 101)), Some(&250));
    assert_eq!(free_map(&hv), map_of(&[(START + 351, 50)]));
    assert_eq!(free(&mut hv, v), Ok(()));
    assert_eq!(free_map(&hv), map_of(&[(START, 100), (START + 101, 300)]));
}

#[test]
fn hierarchical_alloc_uses_whole_chapters_before_the_last() {
    // Two free chapters of 6 pages; 10 pages are asked for. The first
    // chapter is used whole and the second gives the 4 pages still wanted.
    let mut hv = new_hypervisor();
    two_gaps(&mut hv, 6, 6);
    let v = alloc_pages(&mut hv, 10, true).unwrap();
    assert_eq!(used_map(&hv).get(&START), Some(&6));
    assert_eq!(used_map(&hv).get(&(START + 7)), Some(&4));
    assert_eq!(free_map(&hv), map_of(&[(START + 11, 2)]));
    assert_eq!(
        hv.rust_hypervisor_paging.virt_book.virt_page_mapping.get(&v),
        Some(&(10, vec![START, START + 7]))
    );
    assert_eq!(free(&mut hv, v), Ok(()));
    assert_eq!(free_map(&hv), map_of(&[(START, 6), (START + 7, 6)]));
}

#[test]
fn hierarchical_alloc_after_free_takes_the_requested_pages() {
    let mut hv = new_hypervisor();
    assert_eq!(alloc_pages(&mut hv, 3, false), Ok(1));
    assert_eq!(alloc_pages(&mut hv, 2, false), Ok(4));
    assert_eq!(free(&mut hv, 1), Ok(()));
    assert_eq!(free_map(&hv), map_of(&[(START, 3), (START + 5, 507)]));
    assert_eq!(used_map(&hv), map_of(&[(START + 3, 2)]));
    assert_eq!(alloc_pages(&mut hv, 5, true), Ok(6));
    assert_eq!(used_map(&hv), map_of(&[(START, 3), (START + 3, 2), (START + 5, 2)]));
    assert_eq!(free_map(&hv), map_of(&[(START + 7, 505)]));
    assert_eq!(
        hv.rust_hypervisor_paging.virt_book.virt_page_mapping.get(&6),
        Some(&(5, vec![START, START + 5]))
    );
}

#[test]
fn hierarchical_alloc_of_one_chapter_splits_it() {
    let mut hv = new_hypervisor();
    let v = alloc_pages(&mut hv, 12, true).unwrap();
    assert_eq!(used_map(&hv), map_of(&[(START, 12)]));
    assert_eq!(free_map(&hv), map_of(&[(START + 12, 500)]));
    assert_eq!(free(&mut hv, v), Ok(()));
    assert_eq!(free_map(&hv), map_of(&[(START, 512)]));
}

#[test]
fn alloc_of_zero_bytes_records_an_empty_chapter() {
    let mut hv = new_hypervisor();
    assert_eq!(alloc_pages(&mut hv, 0, false), Ok(1));
    assert_eq!(used_map(&hv), map_of(&[(START, 0)]));
    assert_eq!(free_map(&hv), map_of(&[(START, 512)]));
    assert_eq!(
        hv.rust_hypervisor_paging.virt_book.virt_page_mapping.get(&1),
        Some(&(0, vec![START]))
    );
    assert_eq!(hv.rust_hypervisor_paging.virt_book.phys_page_mapping.get(&START), Some(&(0, 1)));
    assert_eq!(hv.rust_hypervisor_paging.arch_paging_struct.curr_virt_addr, 1);
    // freeing it gives the books back
    assert_eq!(free(&mut hv, 1), Ok(()));
    assert!(used_map(&hv).is_empty());
    assert_eq!(free_map(&hv), map_of(&[(START, 512)]));
    assert!(hv.rust_hypervisor_paging.virt_book.virt_page_mapping.is_empty());
    assert!(hv.rust_hypervisor_paging.virt_book.phys_page_mapping.is_empty());
}

#[test]
fn alloc_of_zero_bytes_with_no_free_chapter() {
    let mut hv = new_hypervisor();
    assert_eq!(alloc_pages(&mut hv, 512, false), Ok(1));
    assert_eq!(alloc_pages(&mut hv, 0, false), Err(NOT_ENOUGH_MEMORY));
    assert_eq!(alloc_pages(&mut hv, 0, true), Ok(513));
    assert_eq!(
        hv.rust_hypervisor_paging.virt_book.virt_page_mapping.get(&513),
        Some(&(0, vec![]))
    );
}

#[test]
fn room_check_follows_the_allocation_kind() {
    let mut hv = new_hypervisor();
    two_gaps(&mut hv, 100, 300);
    assert!(!alloc_fits_now(&hv, 350, false));
    assert!(alloc_fits_now(&hv, 350, true));
    assert!(alloc_fits_now(&hv, 300, false));
    assert!(!alloc_fits_now(&hv, 401, true));
}

#[test]
fn listings_follow_addresses() {
    let mut hv = new_hypervisor();
    let a = alloc_pages(&mut hv, 10, false).unwrap();
    alloc_pages(&mut hv, 5, false).unwrap();
    free(&mut hv, a).unwrap();
    let lines = phys_page_lines(&hv.rust_hypervisor_paging.phys_book, hv.page_size);
    assert_eq!(
        lines,
        vec![
            ChapterLine { num_pages: 10, start: START, end: START + 9, is_free: true },
            ChapterLine { num_pages: 5, start: START + 10, end: START + 14, is_free: false },
            ChapterLine { num_pages: 497, start: START + 15, end: START + 511, is_free: true },
        ]
    );
    let free_lines = chapter_lines(&hv.rust_hypervisor_paging.phys_book.free_pages, 1, true);
    assert_eq!(free_lines.len(), 2);
    assert_eq!(free_lines[1].start, START + 15);
    let virt = virt_page_lines(&hv.rust_hypervisor_paging.virt_book, 1);
    assert_eq!(
        virt,
        vec![ChapterLine { num_pages: 5, start: 11, end: 15, is_free: false }]
    );
}

#[test]
fn listing_with_larger_pages() {
    let m = map_of(&[(0, 2), (100, 1)]);
    let lines = chapter_lines(&m, 16, false);
    assert_eq!(
        lines,
        vec![
            ChapterLine { num_pages: 2, start: 0, end: 31, is_free: false },
            ChapterLine { num_pages: 1, start: 100, end: 115, is_free: false },
        ]
    );
}

fn book_with_free(entries: &[(usize, usize)]) -> PhysBook {
    let mut book = PhysBook::new();
    for (k, v) in entries {
        book.free_pages.insert(*k, *v);
    }
    book
}

#[test]
fn place_chapters_splits_only_where_the_request_is_met() {
    let mut book = book_with_free(&[(0, 3), (10, 5)]);
    place_chapters(&vec![0, 10], &vec![3, 5], 5, &mut book, 1);
    assert_eq!(*book.used_pages, map_of(&[(0, 3), (10, 2)]));
    assert_eq!(*book.free_pages, map_of(&[(12, 3)]));
}

#[test]
fn place_chapters_uses_an_exact_chapter_whole() {
    let mut book = book_with_free(&[(0, 4), (40, 8)]);
    place_chapters(&vec![40], &vec![8], 8, &mut book, 4);
    assert_eq!(*book.used_pages, map_of(&[(40, 8)]));
    assert_eq!(*book.free_pages, map_of(&[(0, 4)]));
}

#[test]
fn coalesce_merges_with_both_neighbours() {
    let mut book = book_with_free(&[(0, 2), (5, 3), (20, 1)]);
    coalesce(&2, 3, &mut book, 1);
    assert_eq!(*book.free_pages, map_of(&[(0, 8), (20, 1)]));
}

#[test]
fn coalesce_without_neighbours_adds_a_chapter() {
    let mut book = book_with_free(&[(0, 2)]);
    coalesce(&8, 2, &mut book, 2);
    assert_eq!(*book.free_pages, map_of(&[(0, 2), (8, 2)]));
}
