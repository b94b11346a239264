//! Burns pre-rendered subtitle bitmaps onto decoded RGB video frames.
//!
//! The library holds the verified core: the frame model, the subtitle file
//! name grammar, the per-frame binding table and the pixel compositor with
//! its bounded chunk buffer.

pub mod frame;
pub mod embedder;
pub mod subtitle;
pub mod render;
