//! The simulation-and-timeline engine of an orbit playground.
//!
//! - `body`: identities, and the store that keeps bodies in ascending order of identity.
//! - `universe`: a snapshot of the universe, and one step from a snapshot to the next.
//! - `timeline`: the history of snapshots, one per step.
//! - `world`: the hand-off between the producer of future snapshots and the consumer.
//! - `save`: what is kept of a world, and how a world is rebuilt from it.
//! - `path`: which snapshots the drawn path of a body joins.
//!
//! The engine is generic in the body `B` and the scalar `S`: it never computes with
//! either. The arithmetic of a step comes in as two functions.

pub mod body;
pub mod path;
pub mod save;
pub mod timeline;
pub mod universe;
pub mod world;
