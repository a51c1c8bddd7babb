//! Locates personally-identifiable literals in test code and replaces them with
//! synthetic look-alikes of the same length.

pub mod category;
pub mod error;
pub mod mask_type;
pub mod masker;
pub mod pool;
pub mod rust;
pub mod similarity;
pub mod text;
