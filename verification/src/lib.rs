//! Verified core of a binary-file visual-sampling service: a capacity-bounded
//! LRU sample cache, a uniform windowed sampler over a read-only byte view,
//! and the framed streaming protocol that delivers samples in bounded chunks.

pub mod cache;
pub mod codec;
pub mod config;
pub mod errors;
pub mod protocol;
pub mod sampler;
pub mod session;
