//! A record store for a todo list kept in a comma-delimited text file.
//!
//! The file starts with a fixed header line; every further line holds one
//! record as `id,name,status,description`. The modules here parse and
//! serialize those lines and rewrite whole file contents on every mutation;
//! reading and writing the file itself is left to the caller.

pub mod record;
pub mod split;
pub mod status;
pub mod store;
