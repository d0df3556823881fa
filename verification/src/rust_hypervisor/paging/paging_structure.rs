use vstd::prelude::*;
use std::marker::PhantomData;
use crate::exec::EcdBase;
use crate::rust_hypervisor::paging::declarations::PageTable;
use crate::user_space_arch::arch::AcdUserLevel;

verus! {

/// A paging structure for an architecture and execution context.
pub struct PagingStructure<ACD = AcdUserLevel, ECD = EcdBase> {
    pub page_size: usize,
    /// Whether the hypervisor itself is paged.
    pub hv_paging: bool,
    pub root_table: PageTable,
    pub _acd_marker: PhantomData<ACD>,
    pub _ecd_marker: PhantomData<ECD>,
}

impl<ACD, ECD> PagingStructure<ACD, ECD> {
    /// A paging structure with nothing in it yet.
    pub fn new() -> (r: PagingStructure<ACD, ECD>)
        ensures
            r.page_size == 0,
            r.hv_paging,
            r.root_table == (0usize, 0usize),
    {
        PagingStructure {
            page_size: 0,
            hv_paging: true,
            root_table: (0, 0),
            _acd_marker: PhantomData,
            _ecd_marker: PhantomData,
        }
    }
}

} // verus!
