//! Watch what LLM agents are doing to your files.
//!
//! This library holds what the `wat` program decides and computes: which changes it
//! remembers and for how long, what it asks of the git repository, and what it shows.
//! The program around it does the input and output.

pub mod events;
pub mod git;
pub mod input;
pub mod laws;
pub mod model;
pub mod order;
pub mod path;
pub mod recency;
pub mod render;
pub mod rows;
pub mod screen_laws;
pub mod seqs;
pub mod state;
pub mod text;
