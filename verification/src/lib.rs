//! A fixed-size, round-robin time-series file: the binary layout, the ring
//! addressing of each archive, and the cascade that carries a written point
//! into the coarser archives.
//!
//! Values are IEEE-754 doubles on disk. This crate carries them as their bit
//! patterns (`u64`), and the x-files-factor as the bit pattern of a single
//! (`u32`); it never computes with them as floating-point numbers.

pub mod bytes;
pub mod point;
pub mod archive;
pub mod schema;
pub mod header;
pub mod admission;
pub mod file;

pub use crate::file::WhisperFile;
pub use crate::point::Point;
pub use crate::schema::Schema;
