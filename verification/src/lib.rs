//! An outgoing-only milter that adds RSA-SHA256 DKIM signatures.
//!
//! The library decides; it does no input or output of its own. Bytes, files, sockets and clocks
//! of the daemon are handled by its caller, which hands over what came in and carries out what
//! the library asks for.

pub mod address;
pub mod body;
pub mod cli;
pub mod clock;
pub mod config;
pub mod crypto;
pub mod dkim;
pub mod fold;
pub mod frame;
pub mod header;
pub mod install;
pub mod keygen;
pub mod message;
pub mod milter;
pub mod service;
pub mod settings;
pub mod text;
