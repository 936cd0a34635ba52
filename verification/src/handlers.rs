//! The decisions behind the tool's commands.
pub mod add_fqa;
pub mod ask;
pub mod init;
