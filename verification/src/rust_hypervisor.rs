pub mod hypervisor;
pub mod paging;
pub mod setup;
