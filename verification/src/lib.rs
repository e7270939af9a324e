//! Verified core of an object-detection service.
//!
//! The pipeline turns a fixed-size RGB image into an ordered list of
//! detections: pixel-to-tensor preprocessing, decoding of the model's raw
//! output tensor into candidate boxes, confidence filtering, and greedy
//! IOU-based duplicate suppression.  All geometry and scores are exact
//! fixed-point integers; the caller picks the scale when it converts the
//! model's native floating-point tensors into these values.

pub mod boxes;
pub mod config;
pub mod decode;
pub mod detector;
pub mod suppress;
pub mod tensor;

pub use config::ServerConfig;
