//! A search index over a folder of documents: term and document
//! frequencies kept in memory, the command line and request routing of the
//! server that answers queries over it, and how files are read for indexing.

pub mod assoc;
pub mod cli;
pub mod files;
pub mod laws;
pub mod lexer;
pub mod model;
pub mod routes;
pub mod timestamp;
