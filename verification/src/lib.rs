//! Image steganography built on a randomized byte-at-a-time automaton.
//!
//! A short message is hidden in a grayscale cover image. An entropy coder
//! (the KT codec, `encoder`) turns message bits into code bytes whose low
//! "freedom" bits are chosen by a beam search so that the emitted bit
//! sequence matches the cover as closely as possible; the carrier layer
//! (`image_encoder`) maps each code bit to a pixel along a pseudo-random
//! traversal of the image.

pub mod encoder;
pub mod image_encoder;
pub mod prng;
pub mod search_encoding_tree;
