//! The systems of the demo game that carry state of their own.  Their frame
//! code (vector math, shooting, hit handling) runs in the application.
use crate::gfx::Shader;
use vstd::prelude::*;

verus! {

/// Runs the scripts attached to entities.
#[derive(Debug, Clone, Copy, PartialEq, Eq)]
pub struct ScriptSystem;

/// Moves entities hit by a bullet.
#[derive(Debug, Clone, Copy, PartialEq, Eq)]
pub struct BulletSystem;

/// The player's script: turns and moves the player and shoots bullets drawn
/// with the bullet shader.  `C` is the frame clock.
pub struct PlayerScript<C> {
    bullet_shader: Shader,
    clock: C,
}

impl<C> PlayerScript<C> {
    pub closed spec fn bullet_shader_view(&self) -> Shader {
        self.bullet_shader
    }

    pub closed spec fn clock_view(&self) -> C {
        self.clock
    }

    /// A player script reading `clock`, with no bullet shader yet (0).
    pub fn new(clock: C) -> (r: Self)
        ensures
            r.bullet_shader_view() == 0,
            r.clock_view() == clock,
    {
        Self { bullet_shader: 0, clock }
    }

    /// Sets the shader bullets are drawn with.
    pub fn set_bullet_shader(&mut self, shader: Shader)
        ensures
            final(self).bullet_shader_view() == shader,
            final(self).clock_view() == old(self).clock_view(),
    {
        self.bullet_shader = shader;
    }

    /// The shader bullets are drawn with.
    pub fn bullet_shader(&self) -> (r: Shader)
        ensures
            r == self.bullet_shader_view(),
    {
        self.bullet_shader
    }

    /// The frame clock.
    pub fn clock(&self) -> (r: &C)
        ensures
            *r == self.clock_view(),
    {
        &self.clock
    }
}

} // verus!
