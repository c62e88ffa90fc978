//! Mesh data of a glTF 2.0 document: primitive rendering modes, vertex
//! attribute semantics, morph targets and the validation of mesh primitives.

pub mod decimal;
pub mod json;
pub mod listing;
pub mod mesh;
pub mod mode;
pub mod morph;
pub mod semantic;
pub mod validation;
