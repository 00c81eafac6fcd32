//! glTF 2.0 documents: loading, validation and the decisions of animation and hierarchy.

pub mod animation;
pub mod assets;
pub mod base64;
pub mod buffers;
pub mod collect;
pub mod document;
pub mod drawing;
pub mod error;
pub mod fields;
pub mod forest;
pub mod key_laws;
pub mod laws;
pub mod material;
pub mod model;
pub mod node;
pub mod pose;
pub mod sampling;
pub mod sampling_laws;
pub mod scene;
pub mod skin;
pub mod skin_laws;
pub mod streams;
pub mod transform_laws;
