pub mod cfg;
pub mod niching;
pub mod operators;
pub mod ops;
pub mod util;
