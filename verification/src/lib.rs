//! Deterministic colour quantisation and palette derivation.
//!
//! Pixels go through [`quantize_mediancut`] to a fixed number of
//! representative colours, and from there through [`palette`] or [`roles`] to
//! background, foreground and cursor colours. All colour arithmetic is exact
//! integer arithmetic on the fixed-point values of [`transfer`].

pub mod bucket;
pub mod color;
pub mod frame;
pub mod histogram;
pub mod order;
pub mod palette;
pub mod quantize_mediancut;
pub mod roles;
pub mod shell;
pub mod text;
pub mod transfer;
