//! A read-only virtual filesystem model: files of a flat source directory are
//! regrouped into synthetic subdirectories and renamed, according to a pattern
//! with capture groups and a display-name template. The model is built once
//! from a directory scan and then frozen; queries (attribute lookup, name
//! lookup, directory listing, byte-range reads) are answered against it.

pub mod adapter;
pub mod attr;
pub mod fs;
pub mod naming;
pub mod node;
pub mod strutil;
