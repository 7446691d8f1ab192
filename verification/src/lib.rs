//! Verified core of AutoFilm: turning an AList directory listing into `.strm`
//! files and companion downloads, and keeping a local media library in sync
//! with the server without losing it to a failed scan.
pub mod alist;
pub mod alist2strm;
pub mod ani2alist;
pub mod app_info;
pub mod config;
pub mod extensions;
pub mod fspath;
pub mod text;
