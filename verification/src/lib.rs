//! A VNC server for an X display, spoken over WebSocket to a browser.
//!
//! This crate holds the parts that decide and compute: pixel conversion, dirty
//! tile tracking, the ZRLE encoder, the RFB and WebSocket byte formats, the
//! HTTP front door, the keyboard and capture logic and the command line.
//! Sockets, threads and the X connection belong to the program around it.

pub mod args;
pub mod bytes;
pub mod clipboard;
pub mod http;
pub mod log;
pub mod pixel;
pub mod rfb;
pub mod screen;
pub mod spawn;
pub mod startup;
pub mod text;
pub mod ws;
pub mod x11;
