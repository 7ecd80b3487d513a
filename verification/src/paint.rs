//! Choices made when painting and when handling window events, apart
//! from the drawing library that carries them out.
use vstd::prelude::*;

verus! {

/// How an image asks to be scaled.
#[derive(Debug, PartialEq, Eq, Structural, Clone, Copy)]
pub enum ImageRendering {
    Auto,
    HighQuality,
    CrispEdges,
}

/// The sampling used to draw an image.
#[derive(Debug, PartialEq, Eq, Structural, Clone, Copy)]
pub enum Sampling {
    /// Cubic resampling with the Mitchell filter.
    MitchellCubic,
    /// Nearest pixel, without mipmaps.
    Nearest,
    /// Nearest pixel, blending between mipmap levels.
    NearestMipmapLinear,
}

pub open spec fn sampling_for(q: ImageRendering) -> Sampling {
    match q {
        ImageRendering::HighQuality => Sampling::MitchellCubic,
        ImageRendering::CrispEdges => Sampling::Nearest,
        ImageRendering::Auto => Sampling::NearestMipmapLinear,
    }
}

/// The sampling an image's rendering request calls for.
pub fn parse_image_rendering(quality: ImageRendering) -> (r: Sampling)
    ensures
        r == sampling_for(quality),
{
    match quality {
        ImageRendering::HighQuality => Sampling::MitchellCubic,
        ImageRendering::CrispEdges => Sampling::Nearest,
        _ => Sampling::NearestMipmapLinear,
    }
}

/// The window events the browser tells apart.
#[derive(Debug, PartialEq, Eq, Structural, Clone, Copy)]
pub enum BrowserEvent {
    Quit,
    /// The Escape key was pressed.
    Escape,
    Other,
}

/// Whether an event ends the current round of event polling: closing the
/// window or pressing Escape does.
pub fn ends_polling(event: BrowserEvent) -> (r: bool)
    ensures
        r == (event == BrowserEvent::Quit || event == BrowserEvent::Escape),
{
    match event {
        BrowserEvent::Quit | BrowserEvent::Escape => true,
        BrowserEvent::Other => false,
    }
}

} // verus!
