pub mod lru;
pub mod address;
pub mod connection;
pub mod fd_manager;
pub mod log;
pub mod manager;
pub mod tcp;
pub mod timer;
pub mod text;
pub mod stats;
pub mod config;
pub mod event;
pub mod ip_text;
pub mod signals;
pub mod handlers;
