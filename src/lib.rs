//! Hides an encrypted payload inside image, audio and PDF carriers and
//! recovers it.
pub mod audio;
pub mod bits;
pub mod crypto;
pub mod error;
pub mod legacy;
pub mod pdf;
pub mod raster;
pub mod traits;

pub use audio::AudioSteganography;
pub use crypto::{CryptoManager, KeyManager};
pub use error::SteganoError;
pub use legacy::CrytpoManager;
pub use pdf::PdfSteganography;
pub use raster::{ImageSteganography, PixelBuffer};
pub use traits::Steganography;
