//! Verified core of the Balatro mod loader: command-line parsing, download
//! locations, game-archive manipulation and install-path computation.

pub mod archive;
pub mod commands;
pub mod dependencies;
pub mod parser;
pub mod paths;
pub mod platform;
pub mod text;
