pub mod handlers;
pub mod listing;
