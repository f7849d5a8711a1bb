//! Graphics handles shared by the renderer and the entities that are drawn.
use vstd::prelude::*;

pub mod opengl;

verus! {

/// Handle of an OpenGL vertex array object.
pub type VertexArray = u32;

/// Handle of an OpenGL shader program.
pub type Shader = u32;

/// A texture unit, as passed to sampler uniforms.
pub type Tex = i32;

/// The texture units of a model's material.
#[derive(PartialEq, Eq, Debug, Clone, Copy)]
pub struct Texture {
    albedo: Tex,
    metallic_roughness_ao: Tex,
}

impl Texture {
    /// The material whose albedo and metallic-roughness-ao maps are bound to
    /// the given texture units.
    pub fn new(albedo: u32, metallic_roughness_ao: u32) -> (r: Self)
        ensures
            r.albedo_view() == albedo as i32,
            r.metallic_roughness_ao_view() == metallic_roughness_ao as i32,
    {
        Texture { albedo: albedo as i32, metallic_roughness_ao: metallic_roughness_ao as i32 }
    }

    pub closed spec fn albedo_view(&self) -> Tex {
        self.albedo
    }

    pub closed spec fn metallic_roughness_ao_view(&self) -> Tex {
        self.metallic_roughness_ao
    }

    /// Texture unit of the albedo map.
    pub fn albedo(&self) -> (r: Tex)
        ensures
            r == self.albedo_view(),
    {
        self.albedo
    }

    /// Texture unit of the metallic-roughness-ao map.
    pub fn metallic_roughness_ao(&self) -> (r: Tex)
        ensures
            r == self.metallic_roughness_ao_view(),
    {
        self.metallic_roughness_ao
    }
}

/// An image: rows of pixels of `width` by `height`, bytes in `data`.
#[derive(Debug, Clone, PartialEq)]
pub struct Image {
    pub data: Vec<u8>,
    pub width: u32,
    pub height: u32,
}

impl Image {
    /// The image without pixels.
    pub fn empty() -> (r: Self)
        ensures
            r.data@.len() == 0,
            r.width == 0,
            r.height == 0,
    {
        Image { data: Vec::new(), width: 0, height: 0 }
    }
}

} // verus!
