//! Reading Victoria 2 savefiles: a tokenizer and parser for the savefile
//! format, extraction of war data, sorted view models for display, country
//! catalog helpers (localisation lines, TGA flags) and icon overlay placement.

pub mod text;
pub mod parser;
pub mod war;
pub mod country;
pub mod sort;
pub mod view;
pub mod flag;
pub mod encoding;
pub mod overlay;
