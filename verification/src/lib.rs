//! Keyspaces from keyboard shortcuts: chained chords flattened into states.
pub mod cli;
pub mod constants;
pub mod deserialise;
pub mod keyspace;
pub mod keyspace_laws;
pub mod keyspace_order;
pub mod keyspace_spec;
pub mod keyspace_walk;
pub mod structs;
pub mod text_laws;
