//! A karma tracker: free-text terms gather signed reputation ("karma") from
//! patterns in chat messages (`term++`, `term--`, bracketed and parenthesized
//! variants) and from explicit commands.  This crate holds the verified core:
//! the grammar that extracts karma changes from a line of text, the karma
//! record model with its canonical terms and alias groups, the record codec
//! used for persistence, and the group resolver with its link/unlink edits.

pub mod codec;
pub mod error;
pub mod group;
pub mod handler;
pub mod karma;
pub mod ops;
pub mod parse;
pub mod store;
pub mod text;
