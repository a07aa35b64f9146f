pub mod fitness;
pub mod initial;
pub mod mutation;
