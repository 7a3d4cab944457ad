pub mod backend;
pub mod clone;
pub mod config;
pub mod container;
pub mod durable;
pub mod hints;
pub mod persist;
pub mod proxy;
pub mod shared;
pub mod state;
pub mod strutil;
pub mod tmux;
pub mod tui;
pub mod tmux_backend;
