use vstd::prelude::*;
use crate::exec::EcdBase;
use crate::rust_hypervisor::hypervisor::{RustHypervisor, INVALID_CPU_ID};
use crate::rust_hypervisor::paging::{paging_init, books_empty};
use crate::rust_hypervisor::paging::arch_paging_access::ArchPagingAccess;
use crate::user_space_arch::arch::AcdUserLevel;
use crate::user_space_arch::arch_paging::{USER_PAGE_SIZE, USER_HV_MEM_SIZE};

verus! {

/// What initialization makes of the hypervisor `old` on CPU `cpu_id`: the
/// architecture's page size is recorded, and if no CPU has initialized it yet,
/// `cpu_id` does and the whole memory becomes one free chapter.
pub open spec fn initialized(
    old: RustHypervisor<AcdUserLevel, EcdBase>,
    new: RustHypervisor<AcdUserLevel, EcdBase>,
    cpu_id: usize,
) -> bool {
    let old_paging = old.rust_hypervisor_paging;
    let paging = new.rust_hypervisor_paging;
    let start = old_paging.arch_paging_struct.hv_mem_start;
    &&& new.page_size == USER_PAGE_SIZE
    &&& new.rust_hypervisor_header == old.rust_hypervisor_header
    &&& if old.hv_cpu_id == INVALID_CPU_ID {
        &&& new.hv_cpu_id == cpu_id
        &&& paging.arch_paging_struct.page_size == USER_PAGE_SIZE
        &&& paging.arch_paging_struct.root_table == old_paging.arch_paging_struct.root_table
        &&& paging.arch_paging_struct.hv_mem_start == start
        &&& paging.arch_paging_struct.curr_virt_addr == old_paging.arch_paging_struct.curr_virt_addr
        &&& paging.phys_book.num_total_pages == USER_HV_MEM_SIZE
        &&& paging.phys_book.mem_start == start
        &&& paging.phys_book.free_pages@ == old_paging.phys_book.free_pages@.insert(
            start,
            USER_HV_MEM_SIZE,
        )
        &&& paging.phys_book.used_pages@ == old_paging.phys_book.used_pages@
        &&& paging.phys_book.flags == 0
        &&& paging.virt_book == old_paging.virt_book
    } else {
        &&& new.hv_cpu_id == old.hv_cpu_id
        &&& paging == old_paging
    }
}

/// Initialize all parts of the hypervisor, on the first CPU that asks.
pub fn hv_init(hv: &mut RustHypervisor<AcdUserLevel, EcdBase>, cpu_id: usize) -> (r: Result<(), u8>)
    ensures
        r == Ok::<(), u8>(()),
        initialized(*old(hv), *final(hv), cpu_id),
        old(hv).hv_cpu_id == INVALID_CPU_ID && books_empty(*old(hv))
            && old(hv).rust_hypervisor_paging.arch_paging_struct.hv_mem_start + USER_HV_MEM_SIZE
            <= usize::MAX ==> final(hv).wf(),
{
    // record the page size the architecture uses
    hv.page_size = hv.rust_hypervisor_paging.arch_paging_struct.get_arch_page_size();

    // initialize the hypervisor itself on only one CPU
    if hv.hv_cpu_id == INVALID_CPU_ID {
        proof {
            assert(USER_HV_MEM_SIZE / USER_PAGE_SIZE == USER_HV_MEM_SIZE);
        }
        let r = init_hv_system(hv, cpu_id);
        if r.is_err() {
            return r;
        }
    }
    Ok(())
}

/// Initialize the hypervisor system on CPU `cpu_id`: the whole memory of
/// the architecture, in pages of the recorded size, becomes one free chapter.
fn init_hv_system(hv: &mut RustHypervisor<AcdUserLevel, EcdBase>, cpu_id: usize) -> (r: Result<
    (),
    u8,
>)
    requires
        old(hv).page_size > 0,
    ensures
        r == Ok::<(), u8>(()),
        final(hv).hv_cpu_id == cpu_id,
        final(hv).page_size == old(hv).page_size,
        final(hv).rust_hypervisor_header == old(hv).rust_hypervisor_header,
        ({
            let ps = old(hv).page_size;
            let old_paging = old(hv).rust_hypervisor_paging;
            let paging = final(hv).rust_hypervisor_paging;
            let start = old_paging.arch_paging_struct.hv_mem_start;
            let total = (USER_HV_MEM_SIZE / ps) as usize;
            &&& paging.arch_paging_struct.page_size == ps
            &&& paging.arch_paging_struct.root_table == old_paging.arch_paging_struct.root_table
            &&& paging.arch_paging_struct.hv_mem_start == start
            &&& paging.arch_paging_struct.curr_virt_addr == old_paging.arch_paging_struct.curr_virt_addr
            &&& paging.phys_book.num_total_pages == total
            &&& paging.phys_book.mem_start == start
            &&& paging.phys_book.free_pages@ == old_paging.phys_book.free_pages@.insert(start, total)
            &&& paging.phys_book.used_pages@ == old_paging.phys_book.used_pages@
            &&& paging.phys_book.flags == 0
            &&& paging.virt_book == old_paging.virt_book
        }),
        books_empty(*old(hv)) && old(hv).page_size <= USER_HV_MEM_SIZE
            && old(hv).rust_hypervisor_paging.arch_paging_struct.hv_mem_start + USER_HV_MEM_SIZE
            <= usize::MAX ==> final(hv).wf(),
{
    hv.hv_cpu_id = cpu_id;
    proof {
        let ps = hv.page_size as int;
        let m = USER_HV_MEM_SIZE as int;
        assert((m / ps) * ps <= m) by (nonlinear_arith)
            requires
                ps > 0,
                m >= 0,
        ;
        assert(ps <= m ==> m / ps > 0) by (nonlinear_arith)
            requires
                ps > 0,
        ;
    }
    // initialize the paging part of the hypervisor
    paging_init(hv)
}

} // verus!
