//! Verified text and request-handling logic for a small set of web services:
//! a line re-wrapping formatter, command-line option lookup, a blocking
//! forward proxy's routing decisions, an echo service and a reverse proxy's
//! response shaping.

pub mod cli;
pub mod echo;
pub mod format;
pub mod forward;
pub mod params;
pub mod proxy;
pub mod text;

pub use format::{find_space_from, format_content, line_split, LINE_WIDTH};
