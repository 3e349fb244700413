//! A personal vocabulary list: an ordered collection of term/definition
//! pairs with a human-readable on-disk text format. The store keeps terms
//! unique, and loading a saved vocabulary gives back exactly the value that
//! was saved.

pub mod codec;
pub mod dispatch;
pub mod store;
pub mod text;
