//! A transactional graph datastore laid out over ordered, byte-keyed column
//! families: accounts, typed vertices, typed weighted edges with forward and
//! reverse adjacency indices ordered by update time, and metadata.

pub mod datastore;
pub mod external;
pub mod family;
pub mod keys;
pub mod laws;
pub mod managers;
pub mod models;
