//! A falling-sand cellular automaton: a fixed-size grid of particles is
//! advanced one step at a time under a simple gravity rule and rasterized
//! into an RGBA framebuffer at an integer upscaling factor.

pub mod laws;
pub mod world;
