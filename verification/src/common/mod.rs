//! Building blocks shared by the image families.
pub mod grid;
pub mod mrope;
pub mod placement;
pub mod resize;
pub mod token_layout;
