//! Normalization of confusable Unicode codepoints.
//!
//! A [`translators::Translator`] maps some codepoints to replacements and
//! leaves the rest unmatched; a chain of them, evaluated first-match with an
//! identity fallback, turns any codepoint into exactly one codepoint.
//! [`config`] turns declarative rule records into such a chain.
pub mod config;
pub mod translators;
