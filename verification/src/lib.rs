//! Signature making and image cleaning for MapleStory client builds.

pub mod bignat;
pub mod domain;
pub mod fileimage;
pub mod le;
pub mod maps;
pub mod memory;
pub mod ordered;
pub mod pattern;
pub mod resolver;
pub mod scanner;
pub mod sigmaker;
pub mod stamp;
pub mod text;
pub mod tokens;
pub mod unpack;
pub mod x86;
