//! X11 backend: screen capture through XDAMAGE/GetImage, pointer and
//! keyboard injection through XTEST, cursor shapes through XFIXES.

pub mod capture;
pub mod capture_loop;
pub mod image;
pub mod input;
pub mod resize;

pub use capture::Capture;
pub use image::Grab;
pub use input::Input;
pub use resize::Resizer;
