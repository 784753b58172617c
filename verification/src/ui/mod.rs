pub mod block_grid;
pub mod style;

pub use block_grid::{BlockGrid, Cell};
pub use style::{Span, Tone};
