//! Palette textures: small images whose pixels index a palette of at most
//! fifteen colors (index 0 is transparent), and their run-length encoding.

pub mod common;
pub mod decoding;
pub mod encoding;
pub mod roundtrip;

pub use common::{Color, Header, InvalidInput, PalTex};
pub use decoding::decode;
pub use encoding::encode;
