//! Resolution of quoted `prefix:outer.inner` key paths against JSON documents.
pub mod text;
pub mod token;
pub mod key_path;
pub mod registry;
pub mod value;
pub mod syntax;
pub mod logger;
