//! Photo mosaic construction: each tile-sized cell of a target picture is
//! replaced by the tile picture that is closest to it in L1 distance.

pub mod distinct;
pub mod l1;
pub mod mosaic;
pub mod rgb_image;
