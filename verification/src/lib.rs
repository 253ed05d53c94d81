//! A codec for single lines of the IRC wire protocol (RFC 1459 syntax plus
//! IRCv3 message tags).
//!
//! [`Line::tokenise`] turns one line of raw bytes (without its trailing CRLF)
//! into a structured [`Line`]; [`Line::format`] and [`Line::write_to`] turn a
//! [`Line`] back into its wire byte form. Both directions are specified
//! against a mathematical model of the wire grammar, and the round-trip
//! behaviour of the pair is stated and proved in [`laws`].

pub mod format;
pub mod laws;
pub mod obj;
pub mod text;
pub mod tokenise;
pub mod util;

pub use self::obj::Line;
pub use self::obj::LineModel;
