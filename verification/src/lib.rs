//! Colours whitespace-separated words by structural isomorphism.
//!
//! Two words are isomorphic when a consistent one-to-one character
//! substitution maps one onto the other ("egg" and "add" share the
//! pattern [0, 1, 1]). Words whose pattern is shared by at least one
//! other word of the input, and whose pattern itself repeats a value,
//! are wrapped in a terminal colour escape, one colour per class.

pub mod classify;
pub mod colours;
pub mod occurrence;
pub mod render;
pub mod signature;

pub use classify::{colour, ColouredObject};
pub use colours::{Colour, ColourKey, DiscordColour, DiscordColourIterator, RGB, RGBIterator};
pub use signature::IsomorphSignature;
