//! A prefab engine for an entity-component store: a registry of component types, prefab
//! documents read and written event by event, cooking of prefabs that embed one another
//! into one flat world, and transactions that turn an edit into a diff and its inverse.
//! Component values are held encoded; the typed codecs live with the program.

pub mod clone_merge;
pub mod component_diffs;
pub mod cooking;
pub mod ids;
pub mod option_iter;
pub mod pairs;
pub mod prefab;
pub mod prefab_builder;
pub mod prefab_format;
pub mod registration;
pub mod round_trip;
pub mod transactions;
pub mod world;
pub mod world_serde;
