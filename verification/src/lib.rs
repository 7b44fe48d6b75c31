//! A generator of three-dimensional dungeons on a voxel grid, with its
//! contracts proved.
//!
//! Rooms are boxes on the grid. The voxel map records the class of every
//! cell; the router carves passages between rooms, with stairs where a
//! passage has to climb, by a best-first search over an ordered queue of
//! routes.
pub mod btree_key_values;
pub mod constants;
pub mod core_expansion_dungeon;
pub mod create_start;
pub mod generate_drd;
pub mod key_order;
pub mod mst;
pub mod passage;
pub mod ranges;
pub mod rng;
pub mod room;
pub mod room_connection;
pub mod route;
pub mod route_laws;
pub mod route_spec;
pub mod voxel_map;
