//! Real-time light streaming engine: frame codec, stream scheduler,
//! spectral analysis, light effects and secure-session preparation.
pub mod analyzer;
pub mod api;
pub mod channel;
pub mod effects;
pub mod engine;
pub mod models;
pub mod protocol;
pub mod scheduler;
