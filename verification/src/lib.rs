//! Verified core of a recipe crawling pipeline: text clean-up, message
//! framing, link extraction and recipe extraction from HTML pages.

pub mod text;
pub mod numbers;
pub mod paths;
pub mod links;
pub mod recipe;
pub mod elementaree;
pub mod messages;
pub mod fileio;
pub mod loader;
pub mod queue;
