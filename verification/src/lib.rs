//! The verified core of bedit, a versioned backup repository for edited files.

pub mod browse;
pub mod cli;
pub mod clock;
pub mod config;
pub mod drawing;
pub mod editor;
pub mod encoding;
pub mod failure;
pub mod header;
pub mod identity;
pub mod installer;
pub mod listing;
pub mod mutation;
pub mod order;
pub mod path;
pub mod paths;
pub mod repository;
pub mod screen;
pub mod session;
pub mod store;
pub mod text;
pub mod trusted_fs;
pub mod tui;
pub mod watching;
pub mod wrapper;
