//! A small software rasterizer: TGA images, a packed-RGB frame buffer,
//! integer line and triangle drawing.

pub mod rle;
pub mod tgaformat;
pub mod tgaimage;
pub mod framebuffer;
pub mod datatype;
pub mod drawline;
pub mod drawtriangle;
pub mod renderpipeline;
pub mod model;
