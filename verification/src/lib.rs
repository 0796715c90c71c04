//! Block pixels over a square raster: the raster is cut into equal square
//! blocks, each addressed by a grid coordinate, filled as a whole and
//! queried for its neighbours.

pub mod canvas;
pub mod error;
pub mod grid;
pub mod neighbours;
pub mod raster;

pub use canvas::PixelImage;
pub use error::PixelError;
pub use grid::Grid;
pub use neighbours::Direction;
