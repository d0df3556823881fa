pub mod exec;
pub mod rust_hypervisor;
pub mod user_space_arch;
pub mod server;
