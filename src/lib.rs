//! Generation of pronounceable invented-language words from a fixed
//! inventory of syllables, steering syllable usage toward a target
//! distribution.
pub mod calculatedrandom;
pub mod config;
pub mod configcmd;
pub mod dbcmd;
pub mod error;
pub mod gencmd;
pub mod rangen;
pub mod realrandom;
pub mod syllables;
