//! An encrypted, block-addressed archive: a hierarchical namespace of files,
//! each independently encrypted and authenticated under one 128-bit key.
//!
//! The archive is a sequence of 16-byte blocks. It starts with a header whose
//! encrypted info section locates the directory: a flat, pre-order sequence of
//! descriptors encoding the file tree. File payloads live between the header
//! and the directory, each encrypted in counter mode and authenticated by a
//! CBC-MAC over the ciphertext.

pub mod cipher;
pub mod dir;
pub mod directory;
pub mod memory;
pub mod crypt;
pub mod records;

pub use records::Block;
pub use records::Key;
pub use records::Section;
pub use records::InfoHeader;
pub use records::Header;
pub use records::Descriptor;
pub use records::Name;
pub use records::ErrorKind;
pub use records::VERSION;
pub use cipher::ROUNDS;
pub use directory::Directory;
pub use memory::MemoryReader;
pub use memory::MemoryEditor;
pub use memory::MemoryEditFile;
pub use memory::as_bytes;
