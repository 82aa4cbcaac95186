//! Deck hierarchy maintenance: deck names encode their place in a tree as
//! components joined by a reserved separator, and adding or renaming a deck
//! keeps that encoded tree complete and consistent.

pub mod name;
pub mod deck;
pub mod store;
pub mod add;
pub mod laws;
