//! Which chapter renders each entry point of the programs runs, in order. The
//! renders themselves compute on floating point and run around this library.
use vstd::prelude::*;

verus! {

/// A chapter render of the programs.
#[derive(Debug, Clone, Copy, PartialEq, Eq)]
pub enum Render {
    /// The diffuse, metal and refracting spheres of the materials chapter.
    OutputMaterialsRefract,
    /// Direct lighting with shadow rays toward point lights.
    ShadowRays,
    /// The texture-mapped sphere of the second book.
    TextureMap,
}

/// The first-book chapters one to seven: every render of them is switched
/// off, so nothing runs.
#[allow(non_snake_case)]
pub fn Chapters1_7() -> (renders: Vec<Render>)
    ensures
        renders@ == Seq::<Render>::empty(),
{
    Vec::new()
}

/// The first-book chapters from eight on: only the refraction render runs.
#[allow(non_snake_case)]
pub fn Chapters8_X() -> (renders: Vec<Render>)
    ensures
        renders@ == seq![Render::OutputMaterialsRefract],
{
    let mut renders: Vec<Render> = Vec::new();
    renders.push(Render::OutputMaterialsRefract);
    renders
}

/// The improvements beyond the books: the shadow-ray render.
pub fn rtow_improvements() -> (renders: Vec<Render>)
    ensures
        renders@ == seq![Render::ShadowRays],
{
    let mut renders: Vec<Render> = Vec::new();
    renders.push(Render::ShadowRays);
    renders
}

/// The second-book renders: only the texture-map render runs.
pub fn rtow_tnw_fns() -> (renders: Vec<Render>)
    ensures
        renders@ == seq![Render::TextureMap],
{
    let mut renders: Vec<Render> = Vec::new();
    renders.push(Render::TextureMap);
    renders
}

} // verus!
