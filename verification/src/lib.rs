//! Hadron: the protocol core of a USB client for Goldleaf.
//!
//! The library holds the logic of the client: the little-endian
//! buffers, the command blocks, the decoding of requests and the
//! encoding of responses, the configuration file format, the path
//! rules and the state of the user interface. Everything that talks to
//! the USB device, the file system or the screen lives in the
//! application around it.

pub mod text;

pub mod version;
pub mod buffer;
pub mod command_block;
pub mod properties;
pub mod config;
pub mod filesystem;
pub mod usb;
pub mod command_framework;
pub mod session;
pub mod app;
pub mod logging;
pub mod cli;
