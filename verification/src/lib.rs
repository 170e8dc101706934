//! Dashboard core: the state, text layout and feed logic of a terminal start page.

pub mod text;
pub mod ui;
pub mod feed_guard;
pub mod rss;
pub mod app;
pub mod utils;
pub mod config;
