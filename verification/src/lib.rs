//! `matten`: a dense, row-major, owned multidimensional array library.
//!
//! The library is organised around one container, [`Tensor`], whose element
//! type is a parameter. Everything that decides a shape, a layout, an index or
//! an error is verified here; numeric element arithmetic is supplied by the
//! caller through closures or done by the caller on the values that the
//! layout functions hand back.

pub mod error;
pub mod text;
pub mod limits;
pub mod shape;
pub mod broadcast;
pub mod tensor;
pub mod reshape;
pub mod layout;
pub mod composition;
pub mod math;
pub mod parse;
pub mod display;
pub mod dynamic;
pub mod slice;
pub mod slice_text;

pub use error::{DataFormat, ErrorView, MattenError};
pub use limits::MattenLimits;
pub use tensor::Tensor;
