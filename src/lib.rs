//! Detection, classification and in-place editing of color literals
//! (`#rgb`, `#rrggbb`, `#rrggbbaa`, `rgb(..)`, `rgba(..)`) in theme files.
pub mod color;
pub mod config;
pub mod extension;
pub mod format;
pub mod scanner;
pub mod session;
pub mod text;
