//! Entity-component storage, event queues and the integer bookkeeping of a
//! small game engine.
pub mod component;
pub mod slots;
pub mod entity;
pub mod update;
pub mod entities;
pub mod events;
pub mod component_derive;
pub mod physics;
pub mod gfx;
pub mod scripts;
pub mod ibl;
pub mod laws;
pub mod commit_laws;

pub use component::Component;
pub use entities::Entities;
pub use entity::Entity;
pub use events::Events;
pub use update::Update;
