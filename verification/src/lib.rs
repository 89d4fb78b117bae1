//! Verified core of an inpainting engine.

pub mod aliasing;
pub mod args;
pub mod bounds;
pub mod codec;
pub mod cuda;
pub mod dataflow;
pub mod document;
pub mod elements;
pub mod engine;
pub mod extents;
pub mod fft;
pub mod forward;
pub mod grid;
pub mod image;
pub mod inpaint;
pub mod layout;
pub mod lifetime;
pub mod loader;
pub mod meaning;
pub mod model;
pub mod naming;
pub mod network;
pub mod ops;
pub mod placement;
pub mod pool;
pub mod program;
pub mod safety;
pub mod setup;
pub mod staging;
pub mod steps;
pub mod text;
pub mod threads;
pub mod timing;
pub mod upsampling;
pub mod weights;
