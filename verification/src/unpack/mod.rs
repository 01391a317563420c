//! Turn a dump of a packed client into a clean, analyzable binary: static edits of the headers and
//! sections that never touch code, and the gates that the result has to pass.

pub mod again;
pub mod clean;
pub mod flow;
pub mod gates;
pub mod imports;
pub mod keeps;
pub mod lines;
pub mod outcomes;
pub mod pe;
pub mod sha256;
pub mod verify;
