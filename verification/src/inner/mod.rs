pub mod align;
pub mod calloc;
pub mod free;
pub mod libc_int;
pub mod malloc;
pub mod realloc;
