//! Music-notation parsing and score-structure logic for the Scorify engine.

pub mod text;
pub mod types;
pub mod accessors;
pub mod note_colors;
pub mod pitch;
pub mod lexer;
pub mod parser;
pub mod layout;
pub mod score;
