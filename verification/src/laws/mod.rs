//! What the operations are for: relations between their inputs and results that hold
//! on all inputs, stated without the functions that the contracts are written with.
pub mod background;
pub mod canvas;
pub mod decoding;
pub mod doubles;
pub mod families;
pub mod flattening;
pub mod nearness;
pub mod numerals;
pub mod packing;
pub mod positions;
pub mod resizing;
pub mod singles;
pub mod tokens;
