//! Core logic of a handwriting teacher for Chinese characters: practice
//! sessions, stroke bookkeeping, text catalogs and the archive formats that
//! feed them.

pub mod archive;
pub mod catalog;
pub mod codec;
pub mod controller;
pub mod dictionary;
pub mod storage;
pub mod strokes;
pub mod table;
pub mod text;
