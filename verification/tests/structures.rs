use rust_hypervisor::exec::EcdBase;
use rust_hypervisor::rust_hypervisor::hypervisor::{
    RustHypervisor, RustHypervisorHeader, RustHypervisorPaging, INVALID_CPU_ID, NULL_PAGE_SIZE,
};
use rust_hypervisor::rust_hypervisor::paging::alloc_pages;
use rust_hypervisor::rust_hypervisor::paging::arch_paging::ArchPaging;
use rust_hypervisor::rust_hypervisor::paging::arch_paging_access::ArchPagingAccess;
use rust_hypervisor::rust_hypervisor::paging::free;
use rust_hypervisor::rust_hypervisor::paging::paging_structure::PagingStructure;
use rust_hypervisor::rust_hypervisor::paging::phys_book::PhysBook;
use rust_hypervisor::rust_hypervisor::paging::virt_book::VirtBook;
use rust_hypervisor::rust_hypervisor::setup::hv_init;
use rust_hypervisor::user_space_arch::arch::AcdUserLevel;

#[test]
fn empty_structures() {
    let _ = EcdBase::new();
    let book = PhysBook::new();
    assert_eq!(book.mem_start, 0);
    assert_eq!(book.num_total_pages, 0);
    assert!(book.free_pages.is_empty() && book.used_pages.is_empty());
    let virt = VirtBook::new();
    assert!(virt.virt_page_mapping.is_empty() && virt.phys_page_mapping.is_empty());
    assert_eq!(virt.flags, 0);
    let header = RustHypervisorHeader::new();
    assert_eq!(header._signature, ['0', '1', '2', '3', '4']);
    assert_eq!(header._arch, 0);
    let paging: RustHypervisorPaging<AcdUserLevel, EcdBase> = RustHypervisorPaging::new();
    assert_eq!(paging.arch_paging_struct.curr_virt_addr, 1);
    let structure: PagingStructure<AcdUserLevel, EcdBase> = PagingStructure::new();
    assert!(structure.hv_paging);
    assert_eq!(structure.root_table, (0, 0));
    let hv: RustHypervisor<AcdUserLevel, EcdBase> = RustHypervisor::new();
    assert_eq!(hv.page_size, NULL_PAGE_SIZE);
    assert_eq!(hv.hv_cpu_id, INVALID_CPU_ID);
}

#[test]
fn user_space_architecture() {
    let mut arch: ArchPaging<AcdUserLevel, EcdBase> = ArchPaging::new();
    assert_eq!(arch.page_size, 0);
    assert_eq!(arch.get_arch_page_size(), 1);
    assert_eq!(arch.get_hv_mem_size(), 512);
    arch.hv_mem_start = 77;
    assert_eq!(arch.get_hv_mem_start(), 77);
    assert_eq!(arch.get_entry((0, 0), 5), (2, 1000));
    assert!(arch.is_entry_valid((0, 0), 0));
    assert_eq!(arch.get_phys((0, 0), 9), 9);
    assert!(!arch.is_page_table_empty((0, 0)));
    let mut virt = VirtBook::new();
    assert_eq!(arch.arch_paging_init(&mut virt), Ok(()));
    arch.page_size = 4;
    assert_eq!(arch.create_mapping(&vec![100], 3), Ok(1));
    assert_eq!(arch.create_mapping(&vec![200], 2), Ok(13));
    assert_eq!(arch.curr_virt_addr, 21);
}

#[test]
fn pages_are_conserved() {
    let mut hv: RustHypervisor<AcdUserLevel, EcdBase> = RustHypervisor::new();
    hv.rust_hypervisor_paging.arch_paging_struct.hv_mem_start = 1000;
    hv_init(&mut hv, 0).unwrap();
    let total = |hv: &RustHypervisor<AcdUserLevel, EcdBase>| -> usize {
        let book = &hv.rust_hypervisor_paging.phys_book;
        book.free_pages.values().sum::<usize>() + book.used_pages.values().sum::<usize>()
    };
    let a = alloc_pages(&mut hv, 30, false).unwrap();
    let b = alloc_pages(&mut hv, 40, true).unwrap();
    assert_eq!(total(&hv), 512);
    free(&mut hv, a).unwrap();
    assert_eq!(total(&hv), 512);
    let c = alloc_pages(&mut hv, 200, true).unwrap();
    assert_eq!(total(&hv), 512);
    free(&mut hv, b).unwrap();
    free(&mut hv, c).unwrap();
    assert_eq!(total(&hv), 512);
    assert_eq!(hv.rust_hypervisor_paging.phys_book.free_pages.get(&1000), Some(&512));
}
