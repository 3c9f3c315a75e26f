pub mod proc;
pub mod proc_layout;
