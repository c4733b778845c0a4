//! Core logic of a plain-text todo list: a natural-language date/time
//! resolver, a recurrence engine, the line codec, and a snapshot differ.

pub mod calendar;
pub mod config;
pub mod date_parser;
pub mod diff;
pub mod fuzzy;
pub mod ident;
pub mod recurrence_parser;
pub mod storage;
pub mod sync;
pub mod text;
pub mod timefmt;
pub mod types;
