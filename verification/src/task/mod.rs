pub mod process;
pub mod scheduler;
pub mod trapframe;
