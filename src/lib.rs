//! An event diary kept in a flat text file: dated records with a category and
//! a description, filters over them, and the text rewrites behind adding and
//! deleting records.

pub mod date;
pub mod text;
pub mod event;
pub mod filter;
pub mod store;
pub mod display;
pub mod command;
