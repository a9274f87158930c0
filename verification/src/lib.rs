//! Runtime asset optimisation for a streamed 3D scene: mipmap chains, block
//! compression, a content-addressed cache, and consolidation of duplicate
//! materials and meshes.

pub mod assets;
pub mod bytes;
pub mod cache;
pub mod compress;
pub mod consolidate;
pub mod convert;
pub mod fingerprint;
pub mod image;
pub mod mipmap;
pub mod orchestrator;
pub mod pipeline;
pub mod scene;
pub mod settings;
pub mod viewer;
