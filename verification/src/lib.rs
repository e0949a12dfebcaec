//! Reader and writer for the PAK and KUB asset containers.
//!
//! Both containers start with a little-endian entry count and a table of
//! `(offset, size)` records. A PAK archive names its entries and holds zlib
//! streams; a KUB archive holds anonymous LZRW1 streams. Everything here
//! works on bytes in memory: the caller reads and writes the files.

pub mod archive;
pub mod args;
pub mod builder;
pub mod codec;
pub mod error;
pub mod extract;
pub mod handlers;
pub mod laws;
pub mod layout;
pub mod le;
pub mod parse;
pub mod text;
