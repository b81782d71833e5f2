//! Grid logic of an 8-bit office world: rooms, the world map, room layout, path finding
//! and the small decisions of the player, camera and game modes.
pub mod tiles;
pub mod room;
pub mod office;
pub mod pathfind;
pub mod sessions;
pub mod layout;
pub mod world;
pub mod dynrooms;
pub mod modes;
pub mod colors;
pub mod player;
