//! Entity Component System foundations with verified bookkeeping.

pub mod component;
pub mod entity;
pub mod archetype;
pub mod bundle;
pub mod keyed;
pub mod events;
pub mod parallel_world;
pub mod scheduler;
pub mod commands;
pub mod serializers;
pub mod world;
pub mod task;
pub mod query;
pub mod system_param;

pub use component::{Component, ComponentId};
