pub mod base64;
pub mod config;
pub mod crypto;
pub mod table;
