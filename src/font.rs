//! Opening a font file. Measuring its glyphs takes floating-point
//! rasterisation and is done by the caller on the opened font.

use vstd::prelude::*;

use ab_glyph::FontRef;

use crate::error::Error;

verus! {

#[verifier::external_type_specification]
#[verifier::external_body]
pub struct ExFontRef<'font>(FontRef<'font>);

/// Whether the bytes hold a font: the first face of a TrueType or OpenType
/// file.
pub uninterp spec fn is_font(bytes: Seq<u8>) -> bool;

/// Relies on `ab_glyph::FontRef::try_from_slice`, which parses the first
/// face of the font file in `bytes`.
#[verifier::external_body]
fn parse_font<'a>(bytes: &'a [u8]) -> (r: Option<FontRef<'a>>)
    ensures
        r is Some <==> is_font(bytes@),
{
    FontRef::try_from_slice(bytes).ok()
}

/// Open the font file in `bytes`, or report `InvalidFontData`.
pub fn open_font<'a>(bytes: &'a [u8]) -> (r: Result<FontRef<'a>, Error>)
    ensures
        r is Ok <==> is_font(bytes@),
        r matches Err(e) ==> e == Error::InvalidFontData,
{
    match parse_font(bytes) {
        Some(f) => Ok(f),
        None => Err(Error::InvalidFontData),
    }
}

} // verus!
