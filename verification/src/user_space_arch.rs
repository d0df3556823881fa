pub mod arch;
pub mod arch_paging;
