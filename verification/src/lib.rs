//! Moss archives: one file that holds files and directories, can be mounted, and can be written to.
//!
//! Archives are append-only. Contents are written behind what is there, and an index behind them;
//! what was replaced or removed stays in the file until it is compacted. The library holds no file
//! and no clock: it plans what is to be done to a file, and is told what was done and when.
pub mod browser;
pub mod bytes;
pub mod config;
pub mod crashlaws;
pub mod drivelaws;
pub mod entry;
pub mod errno;
pub mod error;
pub mod file;
pub mod fuse_driver;
pub mod fuselaws;
pub mod histlaws;
pub mod idle;
pub mod index;
pub mod keylaws;
pub mod labels;
pub mod laws;
pub mod layout;
pub mod mount;
pub mod mountlaws;
pub mod number;
pub mod outcome;
pub mod path;
pub mod pathmap;
pub mod preview;
pub mod requestlaws;
pub mod showlaws;
pub mod size;
pub mod storage;
pub mod storelaws;
pub mod text;
pub mod time;
pub mod tree;
pub mod treelaws;
pub mod tui;
pub mod tuilaws;
pub mod windows_driver;
pub mod winlaws;
