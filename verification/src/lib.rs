//! Core of an image and video dehazing tool based on the dark channel prior.
//!
//! Samples are binary32 values held as their bit patterns; the library does
//! everything in the pipeline that compares, ranks, selects or lays out
//! samples, and the command-line decisions of the tool:
//!
//! - [`float_bits`]: `<`, `<=`, `min`, `clamp` of binary32 values on bit patterns;
//! - [`image`]: row-major images;
//! - [`window`]: clamped windows, sliding-window minima, the dark channel;
//! - [`ranking`]: ranking of pixels for the airlight estimate, best score;
//! - [`motion`]: block layout, search offsets and best offset of block matching;
//! - [`temporal`]: frame counter and blending decision of the temporal processor;
//! - [`rgb8`]: downscaling of decoded 8-bit frames;
//! - [`config`], [`cli`]: parameters and runtime settings;
//! - [`evaluation`], [`files`]: evaluation bookkeeping (frame selection and
//!   pairing), file names and scenes;
//! - [`reduce`]: counting and maxima of sample sequences.
pub mod float_bits;
pub mod image;
pub mod window;
pub mod ranking;
pub mod config;
pub mod cli;
pub mod evaluation;
pub mod files;
pub mod motion;
pub mod temporal;
pub mod rgb8;
pub mod reduce;
