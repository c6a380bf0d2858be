//! The entity-component grid world: layouts, the world state machine,
//! vision and rendering.

pub mod action;
pub mod entity;
pub mod environment;
pub mod layout;
pub mod mutation;
pub mod render;
pub mod text;
pub mod vision;
pub mod world;
