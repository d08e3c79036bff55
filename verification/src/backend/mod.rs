pub mod memory;
pub mod multitasking;
pub mod paging;
