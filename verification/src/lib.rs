//! An archetype-based entity component system whose core is verified.

pub mod access;
pub mod archetype;
pub mod arena;
pub mod column;
pub mod command_laws;
pub mod commands;
pub mod component;
pub mod delayed;
pub mod dense;
pub mod despawn_laws;
pub mod discard_laws;
pub mod dyn_laws;
pub mod dyn_query;
pub mod edge_laws;
pub mod effect_laws;
pub mod entity;
pub mod entity_laws;
pub mod error;
pub mod event_registry;
pub mod events;
pub mod events_laws;
pub mod fn_system;
pub mod fx;
pub mod hierarchy_laws;
pub mod inline;
pub mod json;
pub mod listing_laws;
pub mod message_laws;
pub mod mutation;
pub mod pairs;
pub mod par_utils;
pub mod query;
pub mod query_laws;
pub mod queue_laws;
pub mod range_laws;
pub mod registry;
pub mod registry_laws;
pub mod relation_graph;
pub mod relation_index;
pub mod relation_laws;
pub mod relation_query;
pub mod relations;
pub mod requirements;
pub mod resources;
pub mod role_laws;
pub mod shape;
pub mod shape_laws;
pub mod sizes;
pub mod slot_laws;
pub mod storage;
pub mod subtree;
pub mod table_laws;
pub mod text;
pub mod text_laws;
pub mod value_laws;
pub mod view_laws;
pub mod world;
pub mod world_laws;
