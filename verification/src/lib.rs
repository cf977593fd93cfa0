//! Deciding whether a string contains any character that a JSON string
//! encoder would have to escape: control characters (code points below
//! 0x20), the double quote, and the backslash.
//!
//! The crate offers several classifiers that compute this answer in
//! different ways (per-character scan, per-byte scan, branchless scan,
//! table lookup, and a 16-lane windowed scan). Every classifier carries
//! the same contract, so all of them provably agree on every input.

pub mod escape;
pub mod scalar;
pub mod simd;
pub mod table;

pub use escape::escapable_byte;
pub use escape::escapable_char;
pub use escape::has_escapable_byte;
pub use escape::has_escapable_char;
pub use escape::lemma_empty_input;
pub use escape::lemma_utf8_escape_equivalence;
pub use scalar::branchless_needs_escaping;
pub use scalar::simple_needs_escaping_bytes;
pub use scalar::simple_needs_escaping_str;
pub use simd::simd_needs_escaping;
pub use table::json_quotable_character;
pub use table::table_needs_escaping;
