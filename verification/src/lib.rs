//! Records what happened in watched source trees: keys built from
//! text and timestamps, file statistics, and the small amount of logic
//! that sits between a key-value store and the web pages that read it.

pub mod config;
pub mod controllers;
pub mod db;
pub mod models;
pub mod order;
pub mod project;
pub mod text;
pub mod timestamp;
