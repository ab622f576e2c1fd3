//! Zhuyin syllables, phrase dictionaries and conversion logic of an
//! intelligent phonetic input method.

pub mod zhuyin;

pub mod der;
pub mod conversion;
pub mod dictionary;
pub mod editor;
