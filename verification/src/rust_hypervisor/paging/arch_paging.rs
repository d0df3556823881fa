use vstd::prelude::*;
use std::marker::PhantomData;
use crate::exec::EcdBase;
use crate::rust_hypervisor::paging::declarations::{PageTable, PhysAddress, VirtAddress};
use crate::user_space_arch::arch::AcdUserLevel;

verus! {

/// The architecture-specific paging information, parameterised by the
/// architecture context descriptor `ACD` and the execution context
/// descriptor `ECD`.
pub struct ArchPaging<ACD = AcdUserLevel, ECD = EcdBase> {
    /// Size of a page in bytes.
    pub page_size: usize,
    /// Root page table of the architecture.
    pub root_table: PageTable,
    /// Start of the memory the architecture hands to the hypervisor.
    pub hv_mem_start: PhysAddress,
    /// The next virtual address the architecture hands out.
    pub curr_virt_addr: VirtAddress,
    pub _acd_marker: PhantomData<ACD>,
    pub _ecd_marker: PhantomData<ECD>,
}

impl<ACD, ECD> ArchPaging<ACD, ECD> {
    /// Paging state of an architecture before its initialization.
    pub fn new() -> (r: ArchPaging<ACD, ECD>)
        ensures
            r.page_size == 0,
            r.root_table == (0usize, 0usize),
            r.hv_mem_start == 0,
            r.curr_virt_addr == 1,
    {
        ArchPaging {
            page_size: 0,
            root_table: (0, 0),
            hv_mem_start: 0,
            curr_virt_addr: 1,
            _acd_marker: PhantomData,
            _ecd_marker: PhantomData,
        }
    }
}

} // verus!
