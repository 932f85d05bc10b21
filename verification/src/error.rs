use vstd::prelude::*;

verus! {

/// The ways a conversion can fail.
#[derive(Debug, Clone, Copy, PartialEq, Eq, Structural)]
pub enum AsciiError {
    /// The input image could not be read or decoded.
    ImageError,
    /// The block geometry is degenerate (a zero-sized block).
    ConversionError,
    /// A brightness value fell outside the density ramp.
    CharLookupError,
}

impl AsciiError {
    /// A human-readable description of the error.
    pub fn message(&self) -> (m: &'static str)
        ensures
            m@ == (match *self {
                AsciiError::ImageError => "Failed to import image"@,
                AsciiError::ConversionError => "Failed to convert image"@,
                AsciiError::CharLookupError => "Failed to lookup ASCII representation for a pixel/pixel group"@,
            }),
    {
        match self {
            AsciiError::ImageError => "Failed to import image",
            AsciiError::ConversionError => "Failed to convert image",
            AsciiError::CharLookupError => "Failed to lookup ASCII representation for a pixel/pixel group",
        }
    }
}

} // verus!
