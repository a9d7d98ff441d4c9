//! Image formats and themes a server render can produce.
use vstd::prelude::*;

verus! {

/// What a server image is encoded as.
#[derive(Debug, Clone, Copy, PartialEq, Eq, Structural)]
pub enum RenderFormat {
    Svg,
    Png,
}

impl RenderFormat {
    /// The file extension a render is written with.
    pub fn extension(self) -> (s: &'static str)
        ensures
            self == RenderFormat::Svg ==> s@ == "svg"@,
            self == RenderFormat::Png ==> s@ == "png"@,
    {
        match self {
            RenderFormat::Svg => "svg",
            RenderFormat::Png => "png",
        }
    }
}

/// Light or dark drawing.
#[derive(Debug, Clone, Copy, PartialEq, Eq, Structural)]
pub enum Theme {
    Dark,
    Light,
}

} // verus!
