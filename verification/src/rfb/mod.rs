//! RFB 3.8 (the VNC wire protocol).

pub mod auth;
pub mod client;
pub mod decode;
pub mod ext_clipboard;
pub mod handshake;
pub mod message;
pub mod session;
pub mod tile;
pub mod update;
pub mod zlib;
pub mod zrle;

use vstd::prelude::*;

use crate::clipboard::Clipboard;
use crate::x11::resize::Resizer;

verus! {

/// What every session has in common.
pub struct Config {
    pub password: Option<String>,
    pub view_only: bool,
    pub desktop_name: String,
    /// Extra hostnames accepted in a WebSocket `Origin` header, for proxies
    /// that rewrite both `Host` and `X-Forwarded-Host`.
    pub allowed_origins: Vec<String>,
}

/// The optional pieces a session can use, absent when the display does not
/// support them.
pub struct Extras {
    pub resizer: Option<Resizer>,
    pub clipboard: Option<Clipboard>,
}

impl Extras {
    /// Whether the display can be given another size.
    pub fn can_resize(&self) -> (b: bool)
        ensures
            b == (self.resizer is Some),
    {
        self.resizer.is_some()
    }
}

impl Default for Extras {
    fn default() -> (e: Self)
        ensures
            e.resizer is None,
            e.clipboard is None,
    {
        Extras { resizer: None, clipboard: None }
    }
}

} // verus!
