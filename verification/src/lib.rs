//! A verified HTML/XML escaping kernel.
//!
//! The library scans a sequence of fixed-width code units for the five
//! reserved markup characters `<`, `>`, `&`, `"`, `'` and produces a copy in
//! which every occurrence is replaced by its fixed entity (`&lt;`, `&gt;`,
//! `&amp;`, `&#34;`, `&#39;`), leaving all other content untouched. Inputs
//! that need no escaping are reported as such without building an output.
pub mod classify;
pub mod encode;
pub mod engine;
pub mod escape;
pub mod laws;
pub mod rebuild;
pub mod scan;
pub mod unit;

pub use classify::byte_needs_escape;
pub use classify::replacement_index;
pub use engine::chunked_indices;
pub use engine::reference_indices;
pub use encode::units_to_utf8;
pub use encode::EscapeError;
pub use escape::escape_bytes;
pub use escape::escape_wide;
pub use escape::lut_replace;
pub use rebuild::rebuild;
pub use scan::contains_escape;
pub use scan::needs_sanitize;
