//! Integer and text bookkeeping of a singing-voice resampling engine.

pub mod cache;
pub mod config;
pub mod consts;
pub mod flags;
pub mod framing;
pub mod padding;
pub mod parser;
pub mod request;
pub mod tensor;
pub mod text;
pub mod timeline;
pub mod warp;
