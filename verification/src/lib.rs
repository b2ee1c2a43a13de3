//! Decoder for the SVG path mini-language.
//!
//! A byte tokenizer with a compacted sliding window feeds a command
//! interpreter that turns path data (`M 10 10 L 20 20 Z`) into a
//! sequence of drawing segments, which any segment consumer may render;
//! a text renderer that truncates coordinates to integers is provided.

pub mod lexer;

pub mod number;

pub mod path;

pub mod svg;
