//! The store's two files as byte images. What reads and writes the files
//! stands outside this library; the rules for what the bytes hold are here.

pub mod vault;
