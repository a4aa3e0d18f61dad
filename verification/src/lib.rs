//! Incremental mail archiving: a content-addressed message store, the rules
//! that keep a mailbox mirror up to date, and the codecs of the file-tree
//! export.

pub mod archive;
pub mod cfg;
pub mod cmd;
pub mod data;
pub mod file;
pub mod fs;
pub mod hash;
pub mod imap;
pub mod mail;
pub mod object;
pub mod seqs;
pub mod state;
pub mod text;
