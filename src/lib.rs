//! Structural signatures of data types: a small recursive data model, its
//! canonical text rendering, and the rules that build signatures from
//! structural facts about a type.
pub mod codec;
pub mod laws;
pub mod mapper;
pub mod reflect;
pub mod render;
pub mod signature;
