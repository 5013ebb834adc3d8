//! Fixed-capacity UTF-8 string buffer stored inline in a byte array.
pub mod buf;
pub mod case;
pub mod chars;
pub mod layout;

pub use buf::{StrBuf, StrBufError};
pub use layout::{capacity, CAPACITY_U16, CAPACITY_U8};
