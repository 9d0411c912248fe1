//! The core of a top-down 2D game client: exact integer geometry, movement
//! with collision against static rectangles, a dead-zone following camera,
//! ray-cast visibility, the play scene's controller and the wire protocol
//! that carries spawn and position events.
pub mod camera;
pub mod ecs;
pub mod geometry;
pub mod object;
pub mod play;
pub mod protocol;
pub mod raycast;
pub mod scene;
pub mod visibility;
