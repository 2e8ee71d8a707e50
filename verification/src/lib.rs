//! Grid labyrinth generation and room bookkeeping for a dungeon crawler.
pub mod coords;
pub mod cell;
pub mod labyrinth;
pub mod random;
pub mod item;
pub mod door;
pub mod grid;
pub mod carve;
pub mod floor;
pub mod tiles;
pub mod layer;
pub mod map;
pub mod control;
pub mod assets;
