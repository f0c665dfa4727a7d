pub mod text;
pub mod names;
pub mod model;
pub mod config;
pub mod search;
pub mod oauth;
pub mod server;
pub mod upstream;
pub mod cache;
pub mod stats;
