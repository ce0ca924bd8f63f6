pub mod connection;
