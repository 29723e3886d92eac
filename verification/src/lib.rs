//! Copying an Xcode project under a new name.
//!
//! The library decides; it never touches the disk. Its caller lists trees
//! and reads files, hands over paths and texts, and carries out what comes
//! back: the steps of the copy, the files to write, the renamings in their
//! order, the commands to run. [`run::Xcr`] holds the configuration of one
//! run and says which step is due.

pub mod text;
pub mod path;
pub mod config;
pub mod run;
pub mod project;
pub mod bundle;
pub mod copy;
pub mod rewrite;
pub mod rename;
pub mod tree;
