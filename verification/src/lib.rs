//! The decisions behind a tunshell remote shell and its relay, apart from the sockets,
//! processes and files that carry them out.

pub mod text;
pub mod download;
pub mod command;
pub mod spawn;
pub mod dirs;
pub mod shell;
pub mod connect;
pub mod relay;
pub mod tls;
