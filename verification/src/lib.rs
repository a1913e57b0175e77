//! A lorem-ipsum placeholder-text generator.
//!
//! The crate holds one canonical passage of placeholder text and slices it
//! into requested numbers of characters, words, or paragraphs, wrapping
//! around the passage when more units are requested than it contains.

pub mod laws;
pub mod lorem;
pub mod text;

pub use lorem::Lorem;
pub use lorem::LoremError;
pub use lorem::read_lorem;
pub use lorem::run;
