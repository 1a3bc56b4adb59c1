//! Audio fingerprinting by spectral landmarks: peak picking, landmark
//! hashing and offset voting, with the sample-level stages kept generic over
//! the sample type.

pub mod config;
pub mod decode;
pub mod election;
pub mod error;
pub mod events;
pub mod extraction;
pub mod hashing;
pub mod peaks;
pub mod pipeline;
pub mod store;
pub mod table;
