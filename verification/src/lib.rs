//! A resource-caching layer for expensive, derived assets: decoded
//! textures, rasterized text, loaded font byte buffers and decoded audio
//! chunks, memoized under bounded memory with least-recently-used eviction.
//!
//! The backend that actually decodes, rasterizes, uploads and plays is out
//! of scope here: callers hand those steps in as closures, and the caches
//! decide when each one runs.

pub mod audio_system;
pub mod cache_key;
pub mod cache_model;
pub mod font_system;
pub mod bounded_cache;
pub mod lru_store;
pub mod render_system;
pub mod system;

pub use cache_key::FileOrRenderedTextKey;
