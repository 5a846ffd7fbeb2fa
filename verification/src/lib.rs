//! Reclaims space from duplicate blocks on ZFS: finds files that hold the same
//! blocks and lets them share storage by block cloning.
//!
//! A run walks the directories of one dataset at a time (`walk`), hashes the
//! blocks of each file or takes the hashes from a cache (`hasher`, `cache`),
//! finds the blocks whose hash repeats (`index`) and has each of them cloned from
//! the first of its kind once the bytes were found equal (`dedup`). `session`
//! puts these in order. The library decides; reading, writing and asking the
//! kernel are left to its caller.

pub mod bloom;
pub mod cache;
pub mod cli;
pub mod clone;
pub mod codec;
pub mod dedup;
pub mod dirs;
pub mod hasher;
pub mod human;
pub mod ids;
pub mod index;
pub mod path;
pub mod remount;
pub mod run;
pub mod session;
pub mod table;
pub mod text;
pub mod walk;
