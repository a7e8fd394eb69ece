//! Archetype-based entity/component storage: a runtime-typed, columnar
//! in-memory store for small structured records, grouped by schema.
//!
//! Component types are given stable integer identities by a registry; a
//! schema is a fixed-width bitmask over those identities; each archetype
//! pairs one schema with a set of byte columns and a row-parallel entity
//! list; the world routes insertions to archetypes by schema and answers
//! multi-component queries by mask containment.

#![verifier::loop_isolation(false)]

pub mod archetype;
pub mod component;
pub mod game;
pub mod render;
pub mod system;
pub mod window;
pub mod world;

pub use component::component_id;
