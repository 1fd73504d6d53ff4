//! Batch conversion of image files: finding the images below a directory,
//! mirroring their paths below an output directory, and accounting for every
//! item that a pool of workers takes on.

pub mod coordinator;
pub mod pipeline;
pub mod run_laws;
pub mod util;
