pub mod frame;
pub mod page_table;
pub mod boot;
