pub mod hw;
pub mod predictor;
pub mod random;
pub mod wrappers;
