pub mod bootstrap;
pub mod page_allocator;
pub mod trim;
