use vstd::prelude::*;
use crate::exec::EcdBase;
use crate::rust_hypervisor::paging::arch_paging::ArchPaging;
use crate::rust_hypervisor::paging::phys_book::{PhysBook, pages_at};
use crate::rust_hypervisor::paging::virt_book::VirtBook;
use crate::rust_hypervisor::paging::declarations::{NumPages, PhysAddress, VirtAddress};
use crate::user_space_arch::arch::AcdUserLevel;

verus! {

/// Marks a hypervisor that no CPU has initialized yet.
pub const INVALID_CPU_ID: usize = usize::MAX;
/// Page size of a hypervisor before initialization.
pub const NULL_PAGE_SIZE: usize = 0;

/// Everything in the hypervisor.
pub struct RustHypervisor<ACD = AcdUserLevel, ECD = EcdBase> {
    pub rust_hypervisor_header: RustHypervisorHeader,
    pub rust_hypervisor_paging: RustHypervisorPaging<ACD, ECD>,
    /// The page size, as the architecture sets it.
    pub page_size: usize,
    /// The CPU that initialized the hypervisor, or `INVALID_CPU_ID`.
    pub hv_cpu_id: usize,
}

impl<ACD, ECD> RustHypervisor<ACD, ECD> {
    /// A hypervisor that no CPU has initialized yet.
    pub fn new() -> (r: Self)
        ensures
            r.rust_hypervisor_header.is_initial(),
            r.rust_hypervisor_paging.is_initial(),
            r.page_size == NULL_PAGE_SIZE,
            r.hv_cpu_id == INVALID_CPU_ID,
    {
        RustHypervisor::<ACD, ECD> {
            rust_hypervisor_header: RustHypervisorHeader::new(),
            rust_hypervisor_paging: RustHypervisorPaging::new(),
            page_size: NULL_PAGE_SIZE,
            hv_cpu_id: INVALID_CPU_ID,
        }
    }
}

/// All paging-related parts of the hypervisor.
pub struct RustHypervisorPaging<ACD, ECD> {
    pub phys_book: PhysBook,
    pub arch_paging_struct: ArchPaging<ACD, ECD>,
    pub virt_book: VirtBook,
}

impl<ACD, ECD> RustHypervisorPaging<ACD, ECD> {
    /// Freshly made paging parts: empty books and an architecture that has
    /// not been set up.
    pub open spec fn is_initial(&self) -> bool {
        &&& self.phys_book.mem_start == 0
        &&& self.phys_book.num_total_pages == 0
        &&& self.phys_book.free_pages@ == Map::<usize, usize>::empty()
        &&& self.phys_book.used_pages@ == Map::<usize, usize>::empty()
        &&& self.phys_book.flags == 0
        &&& self.arch_paging_struct.page_size == 0
        &&& self.arch_paging_struct.root_table == (0usize, 0usize)
        &&& self.arch_paging_struct.hv_mem_start == 0
        &&& self.arch_paging_struct.curr_virt_addr == 1
        &&& self.virt_book.virt_page_mapping@.is_empty()
        &&& self.virt_book.phys_page_mapping@.is_empty()
        &&& self.virt_book.flags == 0
    }

    /// Paging parts in their state before initialization.
    pub fn new() -> (r: Self)
        ensures
            r.is_initial(),
    {
        RustHypervisorPaging {
            phys_book: PhysBook::new(),
            arch_paging_struct: ArchPaging::<ACD, ECD>::new(),
            virt_book: VirtBook::new(),
        }
    }
}

/// Information about the hypervisor.
pub struct RustHypervisorHeader {
    pub _signature: [char; 5],
    pub _arch: u8,
    pub _flags: usize,
    pub _max_cpus: usize,
}

impl RustHypervisorHeader {
    /// The header a hypervisor starts with.
    pub open spec fn is_initial(&self) -> bool {
        &&& self._signature@ == seq!['0', '1', '2', '3', '4']
        &&& self._arch == 0
        &&& self._flags == 0
        &&& self._max_cpus == 1
    }

    /// The header every hypervisor starts with.
    pub fn new() -> (r: Self)
        ensures
            r.is_initial(),
    {
        RustHypervisorHeader { _signature: ['0', '1', '2', '3', '4'], _arch: 0, _flags: 0, _max_cpus: 1 }
    }
}


/// The mappings agree with the used chapters: every used chapter belongs to
/// exactly one mapping and records that mapping's page count, each mapping
/// lists its chapters once, its chapters hold exactly its page count
/// together, it maps at least one page of `page_size`
/// bytes, and ends at or below `next_virt`, the next virtual address the
/// architecture hands out.
pub open spec fn mappings_wf(
    used: Map<PhysAddress, NumPages>,
    virt: Map<VirtAddress, (NumPages, Vec<PhysAddress>)>,
    phys: Map<PhysAddress, (NumPages, VirtAddress)>,
    next_virt: int,
    page_size: int,
) -> bool {
    &&& forall|p: PhysAddress| #[trigger] used.contains_key(p) <==> phys.contains_key(p)
    &&& forall|p: PhysAddress|
        #[trigger] phys.contains_key(p) ==> {
            &&& virt.contains_key(phys[p].1)
            &&& virt[phys[p].1].1@.contains(p)
            &&& virt[phys[p].1].0 == phys[p].0
        }
    &&& forall|v: VirtAddress|
        #[trigger] virt.contains_key(v) ==> {
            &&& v < next_virt
            &&& virt[v].0 > 0
            &&& v + virt[v].0 * page_size <= next_virt
            &&& virt[v].1@.no_duplicates()
            &&& pages_at(used, virt[v].1@) == virt[v].0
            &&& forall|i: int|
                0 <= i < virt[v].1@.len() ==> phys.contains_key(#[trigger] virt[v].1@[i])
                    && phys[virt[v].1@[i]].1 == v
        }
}

impl<ACD, ECD> RustHypervisor<ACD, ECD> {
    /// The hypervisor is consistent: its page size is the architecture's, the
    /// physical book is consistent for it, and the mappings agree with the book.
    pub open spec fn wf(&self) -> bool {
        let paging = self.rust_hypervisor_paging;
        &&& paging.arch_paging_struct.page_size == self.page_size
        &&& paging.phys_book.wf(self.page_size as int)
        &&& mappings_wf(
            paging.phys_book.used_pages@,
            paging.virt_book.virt_page_mapping@,
            paging.virt_book.phys_page_mapping@,
            paging.arch_paging_struct.curr_virt_addr as int,
            self.page_size as int,
        )
    }
}

} // verus!
