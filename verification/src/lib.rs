//! Catalog manager for optical-disc game images repackaged into fixed-size
//! on-disk fragments.
//!
//! The crate covers the binary catalog codec, the chunked-image engine and
//! the name-hash algorithm: hashing a display name into a short tag
//! ([`crc`]), composing and parsing the fixed 64-byte catalog records,
//! planning the split of a source image into bounded fragment files, and
//! rendering the listing table.
//!
//! All file and disc I/O stays outside the crate: callers hand in file
//! contents, directory listings and sizes as plain values and carry out the
//! returned plans.

pub mod crc;
pub mod error;
pub mod game;
pub mod iso;
pub mod numfmt;
pub mod parser;
pub mod serial;
pub mod status;
pub mod table;
pub mod ulcfg;
