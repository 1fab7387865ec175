//! A small in-memory bill tracker: named bills with owed amounts, stored
//! under auto-incrementing integer ids, driven by a text menu.

pub mod menu;
pub mod parse;
pub mod store;
