//! Maps of hexagonal tiles and their terrain.
//!
//! `hex` and `hexmap` hold the tiles and the geometry of the map: indices
//! and coordinates, neighbours, rings and spirals on a map that is closed
//! sideways. `geo` forms terrain from drifting plates. `generators` holds
//! what generators share, `image` a raster of bytes to draw a map on.
//!
//! Everything is stated over whole numbers and proved.

pub mod generators;
pub mod geo;
pub mod hex;
pub mod hexmap;
pub mod image;

pub use crate::hex::{Decor, Hex, HexType};
pub use crate::hexmap::HexMap;
