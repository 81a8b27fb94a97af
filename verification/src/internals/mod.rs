pub mod big_meta_map;
pub mod binder;
pub mod env;
pub mod hash;
pub mod hashmap;
pub mod l3_main_radix;
pub mod lock;
pub mod mask;
pub mod numa_parser;
pub mod once;
pub mod rbtree;
