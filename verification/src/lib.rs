//! The game logic of a tower defense game: the map and its path, distances
//! along the path, waves of enemies, and the small state machines of towers
//! and enemies.

pub mod construction;
pub mod components;
pub mod falcon;
pub mod fluid;
pub mod map;
pub mod missile;
pub mod pusillanimous;
pub mod targeting;
pub mod tower;
pub mod walker;
pub mod waves;
pub mod world;
