//! Configuration: the rules file schema, discovery of the three layers and
//! their merge.
pub mod discover;
pub mod merge;
pub mod schema;
pub mod declared;
