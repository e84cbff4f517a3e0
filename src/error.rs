use vstd::prelude::*;

verus! {

/// Errors produced by this crate.
#[derive(Debug, Clone, PartialEq, Eq)]
pub enum Error {
    /// The bytes of a font file cannot be interpreted as a font.
    InvalidFontData,
    /// The font covers none of the characters asked for, or only the space.
    NoUseableGlyphs,
    /// Reading, writing or decoding data failed; the text says how.
    IOError(String),
}

impl Error {
    /// A sentence that describes the error, for a person to read.
    pub fn message(&self) -> (r: String)
        ensures
            match self {
                Error::InvalidFontData => r@
                    == "Supplied buffer does not contain valid or recognizable font data."@,
                Error::NoUseableGlyphs => r@ == "FontData object contains no useable glyphs."@,
                Error::IOError(s) => r@ == "I/O error: "@ + s@,
            },
    {
        match self {
            Error::InvalidFontData => String::from_str(
                "Supplied buffer does not contain valid or recognizable font data.",
            ),
            Error::NoUseableGlyphs => String::from_str("FontData object contains no useable glyphs."),
            Error::IOError(s) => {
                let head = String::from_str("I/O error: ");
                head.concat(s.as_str())
            },
        }
    }
}

} // verus!
