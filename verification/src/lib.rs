pub mod assembly;
pub mod buffer;
pub mod config;
pub mod protocol;
pub mod text;
