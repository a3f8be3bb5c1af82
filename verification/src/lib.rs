//! Pixel graphics for text terminals.
//!
//! A [`Canvas`] packs a grid of on/off pixels into Unicode Braille patterns:
//! every character cell of the rendered text carries a block of two by four
//! dots. Pixels are switched individually or along straight segments, and the
//! canvas renders itself as rows of text.
//!
//! Every executable function of this crate carries a contract over the
//! mathematical model [`CanvasView`], and the contracts are machine-checked.

pub mod braille;
pub mod canvas;
pub mod line;
pub mod pen;
pub mod text;

pub use canvas::{Canvas, CanvasView};
