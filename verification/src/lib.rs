//! Verified core logic for three small line-oriented text utilities:
//! concatenating sources with optional line numbering, limiting a source
//! to its first lines or bytes, and copying a source through unchanged.
//!
//! All content is modeled as byte sequences. The surrounding binary is
//! responsible for opening files and writing the computed output streams.

pub mod cat;
pub mod head;
pub mod numbering;
pub mod passthrough;
pub mod source;
pub mod text;
