//! GGUF file format: header, metadata and tensor directory.

pub mod cursor;
pub mod dequant;
pub mod dequant_laws;
pub mod file_laws;
pub mod layout;
pub mod le;
pub mod limits;
pub mod map;
pub mod tensor;
