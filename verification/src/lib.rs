//! Image preprocessing for vision-language models.
pub mod binary32;
pub mod binary64;
pub mod common;
pub mod glm_vl;
pub mod grid_packing;
pub mod laws;
pub mod pipeline;
pub mod qwen_vl;
pub mod rounding_slack;
pub mod text;
