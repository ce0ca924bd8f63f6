//! sshman: an SSH connection manager whose bookkeeping (the connection list,
//! the encrypted password table, identifiers, the password encoding and the
//! command rules) is verified with Verus.
pub mod text;
pub mod storage;
pub mod network;
pub mod models;
pub mod commands;
pub mod ui;
