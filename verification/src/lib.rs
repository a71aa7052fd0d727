//! A library for the Windows bitmap (BMP) image container format:
//! decoding raw bytes into a structured bitmap, re-encoding it, moving
//! between the on-disk layout and an in-memory pixel grid, and the color
//! model with its distance metrics used when approximating colors with a
//! constrained palette.

pub mod adapter;
pub mod args;
pub mod bitmap;
pub mod codec;
pub mod color;
pub mod console;
pub mod convert;
pub mod image;
pub mod utility;
