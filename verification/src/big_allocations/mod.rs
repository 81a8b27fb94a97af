pub mod big_allocation;
pub mod buddy;
pub mod live;
pub mod recognized;
pub mod region;
pub mod report;
pub mod segment;
pub mod segment_trim;
