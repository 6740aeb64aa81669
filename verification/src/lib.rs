//! A verified decoder for the XML model and place formats of Roblox.

pub mod deserializer;
pub mod document;
pub mod dom;
pub mod error;
pub mod event;
pub mod laws;
pub mod reader;
pub mod reflection;
pub mod state;
pub mod text;
pub mod types;
pub mod weak;

pub use deserializer::{decode, decode_str, try_decode, try_decode_str};
pub use error::DecodeError;
pub use reader::XmlEventReader;
pub use state::ParseState;
