//! The same assertions with heap-allocated strings: test names and failure
//! descriptions are `String`s, and equality failures describe both sides with
//! their `Debug` text.

pub mod assertion;
pub mod error;
