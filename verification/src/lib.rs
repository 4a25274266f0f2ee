//! Image comparison engine for print proofing: a bounded cache of resized
//! images, a thresholded pixel diff, a density heatmap diff, and the
//! clustering of flagged pixels into markers.

pub mod cache;
pub mod cluster;
pub mod codec;
pub mod compare;
pub mod density;
pub mod errors;
pub mod forest;
pub mod grid;
pub mod heat;
pub mod heatmap;
pub mod parallel;
pub mod picture;
pub mod preview;
pub mod pixel;
pub mod region;
pub mod scale;
pub mod simple;
