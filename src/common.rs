//! Frames and the small enumerations that describe them.
use vstd::prelude::*;

verus! {

/// What a decoder does with a frame's area before the next frame is shown.
#[derive(Debug, Copy, Clone, PartialEq, Eq, Structural)]
pub enum DisposalMethod {
    /// No disposal specified.
    Any,
    /// Leave the frame in place.
    Keep,
    /// Restore the area to the background color.
    Background,
    /// Restore the area to what it was before the frame.
    Previous,
}

impl DisposalMethod {
    /// The two-bit code of the method.
    pub open spec fn spec_code(self) -> u8 {
        match self {
            DisposalMethod::Any => 0,
            DisposalMethod::Keep => 1,
            DisposalMethod::Background => 2,
            DisposalMethod::Previous => 3,
        }
    }

    /// Returns the two-bit code of the method.
    pub fn code(self) -> (r: u8)
        ensures
            r == self.spec_code(),
    {
        match self {
            DisposalMethod::Any => 0,
            DisposalMethod::Keep => 1,
            DisposalMethod::Background => 2,
            DisposalMethod::Previous => 3,
        }
    }
}

/// An extension label byte, for extensions written unchanged.
#[derive(Debug, Copy, Clone, PartialEq, Eq, Structural)]
pub struct AnyExtension(pub u8);

/// A single frame of an image.
#[derive(Debug, Clone)]
pub struct Frame {
    /// Frame delay in units of 10 ms.
    pub delay: u16,
    /// Disposal method.
    pub dispose: DisposalMethod,
    /// Transparent index, if any.
    pub transparent: Option<u8>,
    /// True if the frame needs user input to be displayed.
    pub needs_user_input: bool,
    /// Offset from the top of the canvas.
    pub top: u16,
    /// Offset from the left of the canvas.
    pub left: u16,
    /// Width of the frame.
    pub width: u16,
    /// Height of the frame.
    pub height: u16,
    /// True if the image is interlaced.
    pub interlaced: bool,
    /// Local color palette as `[r, g, b, ...]`, if any.
    pub palette: Option<Vec<u8>>,
    /// Palette indices of the pixels, or a compressed payload made by
    /// `make_lzw_pre_encoded`.
    pub buffer: Vec<u8>,
}

impl Default for Frame {
    fn default() -> (r: Frame)
        ensures
            r.delay == 0,
            r.dispose == DisposalMethod::Keep,
            r.transparent is None,
            !r.needs_user_input,
            r.top == 0,
            r.left == 0,
            r.width == 0,
            r.height == 0,
            !r.interlaced,
            r.palette is None,
            r.buffer@.len() == 0,
    {
        Frame {
            delay: 0,
            dispose: DisposalMethod::Keep,
            transparent: None,
            needs_user_input: false,
            top: 0,
            left: 0,
            width: 0,
            height: 0,
            interlaced: false,
            palette: None,
            buffer: Vec::new(),
        }
    }
}

} // verus!
