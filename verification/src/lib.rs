//! Core library of the HERO launcher: a verified recursive Gaussian blur
//! engine working on RGBA images, together with the small data types the
//! launcher shares between its parts (content descriptions, localisation,
//! key-value storage, downloads).
use vstd::prelude::*;

pub mod blur;
pub mod content;
pub mod downloader;
pub mod fixed;
pub mod gif_loader;
pub mod image;
pub mod instance;
pub mod kv;
pub mod laws;
pub mod localisation;
pub mod state;
pub mod storage;
pub mod user_interface;

verus! {

/// Something that can offer an icon to be shown on the frontend.
pub trait Icon {
    fn icon(&self) -> Option<IconData>;
}

/// Raw bytes of an icon together with the path it was read from.
#[derive(Clone)]
pub struct IconData {
    pub path: String,
    pub bytes: Vec<u8>,
}

} // verus!
