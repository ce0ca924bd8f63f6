pub mod subnet;
