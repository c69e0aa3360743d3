pub mod connect;
pub mod cost;
pub mod driver;
pub mod grid;
pub mod laws;
pub mod rng;

pub use driver::Driver;
pub use driver::MAX_ITERS;
pub use grid::Board;
pub use grid::Space;
pub use rng::RandomSource;
