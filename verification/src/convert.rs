//! The color-space conversion graph. Conversion is partial: only a few
//! directed edges between color kinds are implemented, and every other
//! pair is a first-class "unsupported" failure rather than an
//! approximation.

use vstd::prelude::*;

verus! {

/// The color representations the library knows of.
#[derive(Debug, Clone, Copy, PartialEq, Eq, Structural)]
pub enum ColorSpaceKind {
    Direct,
    Xyz,
    Lab,
    Hsv,
}

/// A conversion request for a directed pair of color kinds that no
/// implemented edge covers.
#[derive(Debug, Clone, Copy, PartialEq, Eq, Structural)]
pub struct UnsupportedConversion {
    pub from: ColorSpaceKind,
    pub to: ColorSpaceKind,
}

/// The implemented edges of the conversion graph: direct color to XYZ,
/// direct color to LAB (through XYZ), XYZ to LAB, and direct color to
/// HSV. Every other directed pair is unsupported.
pub open spec fn spec_conversion_supported(from: ColorSpaceKind, to: ColorSpaceKind) -> bool {
    ||| (from == ColorSpaceKind::Direct && to == ColorSpaceKind::Xyz)
    ||| (from == ColorSpaceKind::Direct && to == ColorSpaceKind::Lab)
    ||| (from == ColorSpaceKind::Xyz && to == ColorSpaceKind::Lab)
    ||| (from == ColorSpaceKind::Direct && to == ColorSpaceKind::Hsv)
}

/// Whether a directed conversion between two color kinds is
/// implemented.
pub fn conversion_supported(from: ColorSpaceKind, to: ColorSpaceKind) -> (r: bool)
    ensures
        r == spec_conversion_supported(from, to),
{
    match (from, to) {
        (ColorSpaceKind::Direct, ColorSpaceKind::Xyz) => true,
        (ColorSpaceKind::Direct, ColorSpaceKind::Lab) => true,
        (ColorSpaceKind::Xyz, ColorSpaceKind::Lab) => true,
        (ColorSpaceKind::Direct, ColorSpaceKind::Hsv) => true,
        _ => false,
    }
}

/// Admit a conversion request exactly when its directed pair is an
/// implemented edge; otherwise name the pair in the error.
pub fn check_conversion(from: ColorSpaceKind, to: ColorSpaceKind) -> (r: Result<
    (),
    UnsupportedConversion,
>)
    ensures
        r is Ok <==> spec_conversion_supported(from, to),
        r matches Err(e) ==> e == (UnsupportedConversion { from, to }),
{
    if conversion_supported(from, to) {
        Ok(())
    } else {
        Err(UnsupportedConversion { from, to })
    }
}

/// Unsupported conversions: LAB to direct color is not implemented, and
/// no conversion involving HSV other than direct color to HSV is
/// implemented.
pub proof fn lemma_unsupported_conversions()
    ensures
        !spec_conversion_supported(ColorSpaceKind::Lab, ColorSpaceKind::Direct),
        !spec_conversion_supported(ColorSpaceKind::Hsv, ColorSpaceKind::Direct),
        forall|from: ColorSpaceKind, to: ColorSpaceKind|
            (from == ColorSpaceKind::Hsv || to == ColorSpaceKind::Hsv) && !(from
                == ColorSpaceKind::Direct && to == ColorSpaceKind::Hsv)
                ==> !#[trigger] spec_conversion_supported(from, to),
{
}

/// Conversion between the library's value kinds, keyed by the source
/// type, with per-conversion options and failures.
pub trait ConvertableFrom<TFrom>: Sized {
    type Options;

    type Error;

    fn try_convert_from(value: TFrom, options: Self::Options) -> Result<Self, Self::Error>;
}

} // verus!
