pub mod archive;
pub mod bindings;
pub mod cli;
pub mod compression;
pub mod format;
pub mod item;
pub mod meta;
pub mod text;
