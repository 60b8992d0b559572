//! Matching Classical Chinese verse against the meters of lyric forms:
//! the rhyme dictionary, the templates, the candidate bindings of a
//! template's rhyme slots, and the alignment of a text with a template.

pub mod alignment;
pub mod candidates;
pub mod cipai;
pub mod cipai_parser;
pub mod laws;
pub mod meter;
pub mod meter_parser;
pub mod rhyme;
pub mod rhyme_parser;
pub mod rhythm;
pub mod text;
pub mod tone;
