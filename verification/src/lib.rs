//! Rewrites the lines of a properties file from the environment: the value of
//! a key is replaced by that of the variable that stands for the key, and the
//! variables that stand for no key of the file are added as properties.
//!
//! `properties_parser` reads a line, `overriding` holds the environment and
//! the two styles in which keys and variables stand for one another, and
//! `rewrite` puts a whole run together. What the styles compute is stated in
//! `spring_style` and `custom_style`, over the `variables` of the environment
//! and the `replacement` table. `model` holds the values that pass between
//! the parts and the arguments of a run, `text` the vocabulary of character
//! sequences, and `test_utils` a comparison for tests.

pub mod custom_style;
pub mod model;
pub mod overriding;
pub mod properties_parser;
pub mod replacement;
pub mod rewrite;
pub mod spring_style;
pub mod test_utils;
pub mod text;
pub mod variables;
