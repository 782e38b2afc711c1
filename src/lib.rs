//! Thresholded bit folding: a lossy, deterministic fingerprint that maps a byte
//! string to one of the same length, such that inputs whose per-chunk one-bit
//! counts fall on the same side of a tolerance threshold map to the same output.
pub mod fold;
pub mod laws;
pub mod tolerance;
