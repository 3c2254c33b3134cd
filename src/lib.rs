//! The Playfair digraph cipher: a 5x5 key square built from a keyword, the
//! substitution of one pair of letters, and streaming encoders and decoders
//! that cipher the bytes of a source while the caller reads them.
pub mod cipherer;
pub mod laws;
pub mod stream;

pub use cipherer::{Cipherer, PlayfairOutcome};
pub use stream::{ByteSource, Playfair, PlayfairDecoder, PlayfairEncoder};
