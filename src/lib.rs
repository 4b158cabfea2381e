pub mod classify;
pub mod config;
pub mod listing;
pub mod request;
pub mod response;
