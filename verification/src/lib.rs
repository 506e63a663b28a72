//! Shortest safe serialisation of a markup attribute's value.
//!
//! Given the value of one attribute and what is known of the attribute, the
//! library decides whether the attribute can be left out, written as a bare
//! name, or must carry a value; in the last case it encodes the value for each of
//! the three ways of quoting and keeps the shortest result.
//!
//! - [`pattern`]: replacing every match of a set of patterns, leftmost-longest.
//! - [`escape`]: what encoding a value for one way of quoting means.
//! - [`tables`]: the pattern tables of the three encoders.
//! - [`encoders`]: the three replacers, built once.
//! - [`attr`]: the minified value and the three encoders.
//! - [`whitespace`]: trimming and collapsing.
//! - [`minify`]: the decision, and the choice of the shortest form.
//! - [`reparse`]: reading a written value back.

pub mod attr;
pub mod bytes;
pub mod encoders;
pub mod escape;
pub mod minify;
pub mod pattern;
pub mod reparse;
pub mod tables;
pub mod whitespace;

pub use attr::{
    encode_unquoted, encode_using_double_quotes, encode_using_single_quotes, AttrType,
    AttrValMinified,
};
pub use encoders::QuoteEncoders;
pub use escape::QuoteStyle;
pub use minify::{minify_attr_val, AttrPolicy};
pub use pattern::Replacer;
