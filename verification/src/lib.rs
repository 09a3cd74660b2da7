//! Comment-based conditional compilation: regions of a source file are fenced
//! by directive comments and switched on or off by toggling a comment marker.

pub mod attributes;
pub mod buildscript;
pub mod config;
pub mod grammar;
pub mod lang;
pub mod laws;
pub mod predicate;
pub mod printer;
pub mod state;
pub mod text;
pub mod toggle;
