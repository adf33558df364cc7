//! A scene-graph hierarchy kept in an entity store: each entity may have a
//! parent, and the children of one parent form a circular doubly-linked
//! sibling list that is updated in place on every parent / unparent step.

use vstd::prelude::*;

pub mod hierarchy;
mod relinking;
pub mod siblings;
pub mod theorems;
pub mod world;

pub use crate::hierarchy::Hierarchy;
pub use crate::siblings::SiblingIterator;
pub use crate::world::{Entity, World};
