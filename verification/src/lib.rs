//! Dense crossword layouts from song metadata and lyric snippets.
pub mod text;
pub mod order;
pub mod input;
pub mod derive;
pub mod grid;
pub mod search;
pub mod ranking;
pub mod runtime;
pub mod render;
pub mod generate;
