//! Escape-time fractal rendering into an RGBA frame buffer.
//!
//! The library holds the integer side of rendering: how an iteration count
//! becomes a grey pixel, how a frame is cut into bands for workers, how a
//! band is filled at full or reduced resolution from a per-pixel evaluator,
//! and the pointer state machine that decides when and how to redraw.
pub mod color;
pub mod interaction;
pub mod partition;
pub mod render;
