//! What a small shell does: how it reads keys and edits lines, how it takes a
//! command line apart and what that stands for, in which order it runs things,
//! and how it keeps history and settings.
//!
//! The functions here decide and compute. Files, processes and the terminal are
//! left to the program around them, which asks what is to be done next and says
//! what came of it.

pub mod text;
pub mod order;
pub mod numbers;
pub mod token;
pub mod parser;
pub mod grammar;
pub mod brace;
pub mod choices;
pub mod shell;
pub mod alias;
pub mod expand;
pub mod meaning;
pub mod wording;
pub mod lexing;
pub mod keys;
pub mod screen;
pub mod history;
pub mod suggest;
pub mod offers;
pub mod editor;
pub mod editing;
pub mod builtins;
pub mod exec;
pub mod commands;
pub mod process;
pub mod prompt;
pub mod showing;
pub mod config;
pub mod settings;
pub mod correct;
pub mod mending;
pub mod control;
pub mod keeping;
pub mod calls;
