//! The rules of a minimal desktop image viewer: which files of a directory are
//! images and in what order they are shown, how large an image is displayed,
//! and how the keyboard moves through the list.
//!
//! Everything here works on plain values. Reading directories, decoding images
//! and talking to the window system are left to the program around this crate.

pub mod config;
pub mod listing;
pub mod navigation;
pub mod sizing;
pub mod sorting;
pub mod text;
