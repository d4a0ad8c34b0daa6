//! Passive forensic analysis of encrypted SSH sessions from packet metadata.
pub mod analyser;
