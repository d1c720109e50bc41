//! Wavelet-tree forest: a sequence of byte symbols split into fixed-size
//! blocks, each encoded as a small level-major wavelet tree.
pub mod bitvec;
pub mod forest;
pub mod model;
pub mod tinywt;

pub use forest::WTForest;
pub use tinywt::{CapacityExceeded, TinyWT};
