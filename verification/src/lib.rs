//! A local, single-user secret store: encrypted credential records in an
//! append-only log, found through a sorted index of domain keys.
//!
//! The library works on the contents of the store's two files as bytes in
//! memory; reading and writing the files is left to the program around it.
//!
//! - `entry` holds the two record formats and their codecs.
//! - `datastructures` holds the sorted index.
//! - `storage` holds the log: appending, reading and removing records.
//! - `engine` keeps index and log fitting together.
//! - `crypto` derives keys and seals passwords.
//! - `command` reads the command line and carries out the commands.
//! - `cli` reads what the user answers at a prompt.
//! - `text` orders and converts texts, and `errs` names the failures.

pub mod cli;
pub mod command;
pub mod crypto;
pub mod datastructures;
pub mod engine;
pub mod entry;
pub mod errs;
pub mod storage;
pub mod text;
