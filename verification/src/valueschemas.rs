//! Byte codecs for typed values stored in 32-byte slots.

pub mod fr256;
