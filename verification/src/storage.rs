pub mod buffer_pool_manager;
pub mod disk_manager;
pub mod page;
