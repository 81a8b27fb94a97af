pub mod allocation_api;
pub mod config;
pub mod debug;
pub mod raw;
pub mod rsmalloc;
