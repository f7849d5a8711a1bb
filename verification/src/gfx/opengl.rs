//! The OpenGL renderer's bookkeeping: texture unit allocation, the handles
//! of the installed skybox, shader uniform names and shader error messages.
//! The OpenGL calls themselves are made by the application's frame code.
use crate::gfx::{Shader, Tex, Texture, VertexArray};
use vstd::prelude::*;
use vstd::utf8::{encode_utf8, valid_utf8};

verus! {

/// The handles of an installed image based lighting skybox.
#[derive(Debug, Clone, Copy, PartialEq, Eq)]
pub struct Skybox {
    pub vao: VertexArray,
    pub shader: Shader,
    pub image: Tex,
    pub diffuse: Tex,
    pub specular: Tex,
    pub brdf_lut: Tex,
}

/// Something that draws itself with OpenGL.
pub trait OpenGlShader {
    fn render(&self);
}

/// The renderer's state: the number of texture units handed out so far and
/// the installed skybox.
pub struct OpenGlRenderer {
    texture_count: u32,
    skybox: Option<Skybox>,
}

impl OpenGlRenderer {
    pub closed spec fn texture_count_view(&self) -> u32 {
        self.texture_count
    }

    pub closed spec fn skybox_view(&self) -> Option<Skybox> {
        self.skybox
    }

    /// A renderer that has handed out no texture unit and has no skybox.
    /// The OpenGL state (clear color, depth test, sRGB framebuffer) is set
    /// by the caller.
    pub fn init() -> (r: Self)
        ensures
            r.texture_count_view() == 0,
            r.skybox_view() is None,
    {
        Self { texture_count: 0, skybox: None }
    }

    /// Hands out the next texture unit: units are numbered from 1, in order.
    pub fn new_tex(&mut self) -> (r: u32)
        requires
            old(self).texture_count_view() < u32::MAX,
        ensures
            r == old(self).texture_count_view() + 1,
            final(self).texture_count_view() == r,
            final(self).skybox_view() == old(self).skybox_view(),
    {
        self.texture_count += 1;
        self.texture_count
    }

    /// Hands out the texture units of a model's material: the albedo map's
    /// unit, then the metallic-roughness-ao map's.
    pub fn new_material(&mut self) -> (r: Texture)
        requires
            old(self).texture_count_view() < u32::MAX - 1,
        ensures
            r.albedo_view() == (old(self).texture_count_view() + 1) as i32,
            r.metallic_roughness_ao_view() == (old(self).texture_count_view() + 2) as i32,
            final(self).texture_count_view() == old(self).texture_count_view() + 2,
            final(self).skybox_view() == old(self).skybox_view(),
    {
        let albedo = self.new_tex();
        let metallic_roughness_ao = self.new_tex();
        Texture::new(albedo, metallic_roughness_ao)
    }

    /// Hands out the four texture units of a skybox (environment image,
    /// diffuse irradiance, specular prefilter, BRDF lookup table, in that
    /// order) and installs the skybox drawn from `vao` with `shader`.
    pub fn set_skybox(&mut self, vao: VertexArray, shader: Shader) -> (r: Skybox)
        requires
            old(self).texture_count_view() < u32::MAX - 3,
        ensures
            r.vao == vao,
            r.shader == shader,
            r.image == (old(self).texture_count_view() + 1) as i32,
            r.diffuse == (old(self).texture_count_view() + 2) as i32,
            r.specular == (old(self).texture_count_view() + 3) as i32,
            r.brdf_lut == (old(self).texture_count_view() + 4) as i32,
            final(self).texture_count_view() == old(self).texture_count_view() + 4,
            final(self).skybox_view() == Some(r),
    {
        let image = self.new_tex();
        let diffuse = self.new_tex();
        let specular = self.new_tex();
        let brdf_lut = self.new_tex();
        let skybox = Skybox {
            vao,
            shader,
            image: image as i32,
            diffuse: diffuse as i32,
            specular: specular as i32,
            brdf_lut: brdf_lut as i32,
        };
        self.skybox = Some(skybox);
        skybox
    }

    /// The installed skybox, if any.
    pub fn skybox(&self) -> (r: Option<&Skybox>)
        ensures
            match r {
                Some(s) => self.skybox_view() == Some(*s),
                None => self.skybox_view() is None,
            },
    {
        match &self.skybox {
            Some(s) => Some(s),
            None => None,
        }
    }
}

/// The name of field `field` of the uniform struct `key`: `key.field`.
pub fn subkey(key: &str, field: &str) -> (r: String)
    ensures
        r@ == key@ + seq!['.'] + field@,
{
    let mut r = String::from_str(key);
    r.append(".");
    proof {
        reveal_strlit(".");
    }
    r.append(field);
    r
}

/// `s` without its trailing NUL characters.
pub open spec fn trim_trailing_nuls(s: Seq<char>) -> Seq<char>
    decreases s.len(),
{
    if s.len() > 0 && s.last() == '\0' {
        trim_trailing_nuls(s.drop_last())
    } else {
        s
    }
}

/// `String::from_utf8`: the string whose UTF-8 encoding is `bytes`, or
/// `None` when `bytes` is not valid UTF-8.
#[verifier::external_body]
fn string_from_utf8(bytes: Vec<u8>) -> (r: Option<String>)
    ensures
        r is Some <==> valid_utf8(bytes@),
        r matches Some(s) ==> encode_utf8(s@) == bytes@,
{
    String::from_utf8(bytes).ok()
}

/// An error reported by OpenGL while compiling or linking a shader.
#[derive(Debug, PartialEq, Eq)]
pub struct OpenGlError {
    err: String,
}

impl OpenGlError {
    /// The error's message.
    pub closed spec fn message_view(&self) -> Seq<char> {
        self.err@
    }

    /// An error with the given message.
    pub fn new(err: String) -> (r: Self)
        ensures
            r.message_view() == err@,
    {
        OpenGlError { err }
    }

    /// The error reported in an OpenGL info log buffer: the text the buffer
    /// holds, without the NUL padding after it.  The buffer must hold UTF-8.
    pub fn from_info_log(log: Vec<u8>) -> (r: Self)
        requires
            valid_utf8(log@),
        ensures
            exists|text: Seq<char>|
                encode_utf8(text) == log@ && r.message_view() == trim_trailing_nuls(text),
    {
        let text = string_from_utf8(log).unwrap();
        let ghost chars = text@;
        let s = text.as_str();
        let mut end = s.unicode_len();
        proof {
            assert(chars.take(end as int) =~= chars);
        }
        while end > 0 && s.get_char(end - 1) == '\0'
            invariant
                s@ == chars,
                0 <= end <= chars.len(),
                trim_trailing_nuls(chars) == trim_trailing_nuls(chars.take(end as int)),
            decreases end,
        {
            proof {
                assert(chars.take(end as int).drop_last() =~= chars.take(end - 1));
            }
            end -= 1;
        }
        proof {
            if end > 0 {
                assert(chars.take(end as int).last() == chars[end - 1]);
            }
            lemma_trim_is_fixed(chars.take(end as int));
        }
        let trimmed = String::from_str(s.substring_char(0, end));
        proof {
            assert(trimmed@ =~= chars.take(end as int));
        }
        OpenGlError { err: trimmed }
    }

    /// The error's message.
    pub fn message(&self) -> (r: &str)
        ensures
            r@ == self.message_view(),
    {
        self.err.as_str()
    }
}

/// Trimming a string that does not end with NUL leaves it unchanged, and
/// trimming twice is trimming once.
pub proof fn lemma_trim_is_fixed(s: Seq<char>)
    ensures
        (s.len() == 0 || s.last() != '\0') ==> trim_trailing_nuls(s) == s,
        trim_trailing_nuls(trim_trailing_nuls(s)) == trim_trailing_nuls(s),
    decreases s.len(),
{
    if s.len() > 0 && s.last() == '\0' {
        lemma_trim_is_fixed(s.drop_last());
    }
}

} // verus!
