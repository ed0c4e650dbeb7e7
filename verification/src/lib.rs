//! A typesetting core: turns a hierarchically styled text document into
//! laid-out lines of shaped glyph runs.
//!
//! The pipeline has four stages. A styled-text document is a balanced
//! stream of text spans and style push/pop markers. The style resolver
//! flattens the nested style scopes into one effective style per position.
//! The offset translator maps between byte offsets (the public, stable
//! index space) and UTF-16 code-unit offsets (the index space of shaping
//! engines). The typesetter serializes the document into a shaping
//! request, accepts the shaping engine's flat per-code-unit output, and
//! reassembles it into `Line` and `Run` values clipped to a requested
//! byte range.
//!
//! The shaping engine itself (line breaking, glyph selection, font
//! fallback) is an external collaborator: this crate prepares its input,
//! states what a well-formed answer looks like, and is verified to
//! reassemble any such answer correctly.

pub mod format;
pub mod line;
pub mod markdown;
pub mod offsets;
pub mod run;
pub mod shaping;
pub mod simple_styled_text;
pub mod style;
pub mod styled_text;
pub mod typesetter;
