//! Engine for region container files: a fixed 8192-byte header indexes up to
//! 1024 variable-size, zlib-compressed chunks stored in 4096-byte sectors.
//! The engine parses the header, measures stale trailing bytes ("junk") in a
//! chunk's allocated sectors, zeroes such tails, and recompresses chunk
//! payloads in place without disturbing the sector layout.
//!
//! The engine works on an owned in-memory copy of the file's bytes; reading
//! and writing the file itself is left to the caller.

pub mod bytes;
pub mod region;
pub mod zlib;

pub use region::Error;
pub use region::RegionFile;
