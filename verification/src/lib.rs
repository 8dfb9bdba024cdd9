use vstd::prelude::*;

pub mod config;
pub mod decode;
pub mod page;
pub mod text;
pub mod prompt;
pub mod placeholders;
pub mod handwriting;
pub mod pages;
pub mod tokens;
pub mod tokenize;
pub mod generation;
pub mod describe;
pub mod trocr;
pub mod thicken;
pub mod raster;
pub mod segmentation;

verus! {
}
