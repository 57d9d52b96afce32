//! Encoder for animated GIF89a images: screen descriptor, color tables,
//! control and looping extensions, LZW-compressed image data in sub-blocks,
//! and the trailer, handed to any byte sink.
use vstd::prelude::*;

pub mod common;
pub mod encoder;
pub mod format;
pub mod io;
pub mod lzw;
pub mod traits;

pub use crate::common::{AnyExtension, DisposalMethod, Frame};
pub use crate::encoder::{Encoder, EncodingError, EncodingFormatError, ExtensionData, Repeat};

verus! {

} // verus!
