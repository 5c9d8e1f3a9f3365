//! Movement reachability on a hexagonal tile map.
//!
//! Given the tile a unit stands on, the number of move points it may spend
//! and the tiles that other units occupy, [`pathfinder::Pathfinder`] records
//! for every tile of the map the least number of steps in which the unit can
//! get there, and rebuilds the route to any tile that it reached.
//!
//! - [`types`], [`dir`], [`game_state`]: positions, the six directions and
//!   the units on the map.
//! - [`cost_map`], [`rows`]: what a fill leaves behind, the path it records,
//!   and the tiles in the order in which a grid stores them.
//! - [`reach`], [`route`], [`fill`]: what a fill has to compute: distances
//!   over the tiles that may be entered, and the first of the shortest
//!   routes.
//! - [`step`]: what one look at a neighbour does, and a round of six.
//! - [`pathfinder`]: the grid and the fill itself.
//! - [`search`]: why the fill computes what it has to.
//! - [`hex`], [`laws`]: what follows for every filled map.

pub mod types;
pub mod dir;
pub mod game_state;
pub mod cost_map;
pub mod rows;
pub mod route;
pub mod reach;
pub mod fill;
pub mod step;
pub mod search;
pub mod hex;
pub mod laws;
pub mod pathfinder;
