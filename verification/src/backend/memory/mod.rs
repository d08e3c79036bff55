pub mod pmm;
pub mod vmm;
