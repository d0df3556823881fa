use vstd::prelude::*;
use crate::rust_hypervisor::paging::declarations::{
    NumPages, PageTable, PageTableEntry, PhysAddress, VirtAddress,
};
use crate::rust_hypervisor::paging::virt_book::VirtBook;

verus! {

/// How the architecture-independent paging code reaches the paging system of
/// the architecture it runs on.
pub trait ArchPagingAccess<ACD, ECD> {
    /// Whether the architecture can hand out a virtual address range of
    /// `num_pages_used` pages.
    spec fn can_map(&self, num_pages_used: NumPages) -> bool;

    /// Initialize the architecture-specific paging structure.
    fn arch_paging_init(&self, virt_book: &mut VirtBook) -> Result<(), u8>;

    /// The page size used by the architecture.
    fn get_arch_page_size(&self) -> usize;

    /// The size of the hypervisor's memory.
    fn get_hv_mem_size(&self) -> usize;

    /// The start address of the hypervisor's memory.
    fn get_hv_mem_start(&self) -> PhysAddress;

    /// The page table entry for a virtual address.
    fn get_entry(&self, page_table: PageTable, virt_addr: VirtAddress) -> PageTableEntry;

    /// Whether a page table entry is valid.
    fn is_entry_valid(&self, pte: PageTableEntry, flags: usize) -> bool;

    /// The physical address for a page table entry and virtual address.
    fn get_phys(&self, pte: PageTableEntry, virt_addr: VirtAddress) -> PhysAddress;

    /// Map a newly allocated set of chapters to a virtual address.
    fn create_mapping(&mut self, phys_addr: &Vec<PhysAddress>, num_pages_used: NumPages) -> Result<
        VirtAddress,
        u8,
    >
        requires
            old(self).can_map(num_pages_used),
    ;

    /// Whether a page table is empty.
    fn is_page_table_empty(&self, pt: PageTable) -> bool;
}

} // verus!
