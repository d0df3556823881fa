use vstd::prelude::*;
use std::collections::BTreeMap;
use crate::rust_hypervisor::paging::declarations::{NumPages, PhysAddress, VirtAddress};

verus! {

/// The mappings between virtual addresses and the physical chapters behind them.
pub struct VirtBook {
    /// Maps a virtual address to the number of pages mapped there and the
    /// physical addresses of the chapters behind it.
    pub virt_page_mapping: Box<BTreeMap<VirtAddress, (NumPages, Vec<PhysAddress>)>>,
    /// Maps the physical address of a chapter to the number of pages of the
    /// mapping it belongs to and that mapping's virtual address.
    pub phys_page_mapping: Box<BTreeMap<PhysAddress, (NumPages, VirtAddress)>>,
    /// Flags, as needed.
    pub flags: usize,
}

impl VirtBook {
    /// Empty virtual bookkeeping: no mappings yet.
    pub fn new() -> (r: VirtBook)
        ensures
            r.virt_page_mapping@ == Map::<VirtAddress, (NumPages, Vec<PhysAddress>)>::empty(),
            r.phys_page_mapping@ == Map::<PhysAddress, (NumPages, VirtAddress)>::empty(),
            r.flags == 0,
    {
        VirtBook {
            virt_page_mapping: Box::new(BTreeMap::new()),
            phys_page_mapping: Box::new(BTreeMap::new()),
            flags: 0,
        }
    }
}

} // verus!
