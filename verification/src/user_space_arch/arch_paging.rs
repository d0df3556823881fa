use vstd::prelude::*;
use crate::exec::EcdBase;
use crate::rust_hypervisor::paging::arch_paging::ArchPaging;
use crate::rust_hypervisor::paging::arch_paging_access::ArchPagingAccess;
use crate::rust_hypervisor::paging::declarations::{
    NumPages, PageTable, PageTableEntry, PhysAddress, VirtAddress,
};
use crate::rust_hypervisor::paging::virt_book::VirtBook;
use crate::user_space_arch::arch::AcdUserLevel;

verus! {

/// Page size of the user-space architecture.
pub const USER_PAGE_SIZE: usize = 1;
/// Size of the memory the user-space architecture gives the hypervisor.
pub const USER_HV_MEM_SIZE: usize = 512;

/// A simple paging system that runs in user space, for testing the hypervisor.
/// Its memory lives wherever `hv_mem_start` says, and it hands out virtual
/// addresses by counting up from `curr_virt_addr`, assuming endless virtual space.
impl ArchPagingAccess<AcdUserLevel, EcdBase> for ArchPaging<AcdUserLevel, EcdBase> {
    open spec fn can_map(&self, num_pages_used: NumPages) -> bool {
        self.curr_virt_addr + num_pages_used * self.page_size <= usize::MAX
    }

    /// Nothing to set up in the bookkeeping; the memory itself is reserved by
    /// whoever owns it.
    fn arch_paging_init(&self, virt_book: &mut VirtBook) -> (r: Result<(), u8>)
        ensures
            r == Ok::<(), u8>(()),
            *final(virt_book) == *old(virt_book),
    {
        Ok(())
    }

    fn get_arch_page_size(&self) -> (r: usize)
        ensures
            r == USER_PAGE_SIZE,
    {
        USER_PAGE_SIZE
    }

    fn get_hv_mem_size(&self) -> (r: usize)
        ensures
            r == USER_HV_MEM_SIZE,
    {
        USER_HV_MEM_SIZE
    }

    fn get_hv_mem_start(&self) -> (r: PhysAddress)
        ensures
            r == self.hv_mem_start,
    {
        self.hv_mem_start
    }

    fn get_entry(&self, _page_table: PageTable, _virt_addr: VirtAddress) -> (r: PageTableEntry)
        ensures
            r == (2usize, 1000usize),
    {
        (2, 1000)
    }

    fn is_entry_valid(&self, _pte: PageTableEntry, _flags: usize) -> (r: bool)
        ensures
            r,
    {
        true
    }

    fn get_phys(&self, _pte: PageTableEntry, virt_addr: VirtAddress) -> (r: PhysAddress)
        ensures
            r == virt_addr,
    {
        virt_addr
    }

    /// Hands out the next virtual address and moves past the pages mapped there.
    fn create_mapping(&mut self, _phys_addr: &Vec<PhysAddress>, num_pages_used: NumPages) -> (r:
        Result<VirtAddress, u8>)
        ensures
            r == Ok::<VirtAddress, u8>(old(self).curr_virt_addr),
            final(self).curr_virt_addr == old(self).curr_virt_addr + num_pages_used * old(self).page_size,
            final(self).page_size == old(self).page_size,
            final(self).root_table == old(self).root_table,
            final(self).hv_mem_start == old(self).hv_mem_start,
    {
        let curr_virt_addr = self.curr_virt_addr;
        self.curr_virt_addr = curr_virt_addr + (num_pages_used * self.page_size);
        Ok(curr_virt_addr)
    }

    fn is_page_table_empty(&self, _pt: PageTable) -> (r: bool)
        ensures
            !r,
    {
        false
    }
}

} // verus!
