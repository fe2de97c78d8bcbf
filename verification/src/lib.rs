//! Core of a terminal application that keeps a small persisted table of
//! named UTC hour offsets, lets the user add entries through an editable
//! input line, and renders the table with a live, tick-driven time column.
//!
//! Everything here is pure state and arithmetic: the store and its text
//! serialization, the input-line grammar, the line editor, the column
//! formatter, the event-timing rules and the controller state machine.
//! Terminal, file and clock access live outside, in the binary around
//! this library.

pub mod app;
pub mod codec;
pub mod config;
pub mod dates;
pub mod editor;
pub mod events;
pub mod storage;
pub mod strutil;
pub mod text;
pub mod timezones;
pub mod ui;
pub mod unicode;
pub mod users;
