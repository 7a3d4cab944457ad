pub mod app;
pub mod event;
