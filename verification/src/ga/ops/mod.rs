pub mod crossover;
pub mod distance;
pub mod fitness;
pub mod mutation;
pub mod util;
