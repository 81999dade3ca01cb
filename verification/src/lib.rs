pub mod chunkmap;
pub mod text;
pub mod error;
pub mod auth;
pub mod config;
pub mod models;
pub mod sync;
pub mod admin;
