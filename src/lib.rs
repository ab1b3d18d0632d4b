//! Decoding of loose objects from a content-addressed object store.
//!
//! The library parses the inflated bytes of one stored object: a header
//! `<tag> <decimal size>\0`, then either a flat payload or a directory
//! listing of fixed-shape records `<octal mode> <name>\0<20-byte id>`.
pub mod buf_utils;
pub mod digits;
pub mod error;
pub mod format;
pub mod object;
pub mod sha;
pub mod store;

pub use buf_utils::BufUtils;
pub use buf_utils::Cursor;
pub use buf_utils::CursorError;
pub use error::EntryError;
pub use error::HeaderField;
pub use error::ObjectError;
pub use error::TreeError;
pub use object::parse_object;
pub use object::parse_tree;
pub use object::parse_tree_entry;
pub use object::Object;
pub use object::TreeEntry;
pub use object::TreeEntryType;
pub use sha::Sha;
pub use store::find_object_in_objects;
pub use store::find_object_in_pack;
pub use store::CatFile;
