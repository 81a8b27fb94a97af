pub mod global_alloc2;
