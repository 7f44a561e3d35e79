//! A matcher for a small subset of POSIX regular expressions, in the manner
//! of `egrep`: literals, the wildcard, named and listed character classes,
//! the quantifiers `*`, `+`, `?` and `{m,n}`, the anchors `^` and `$`, and
//! alternatives separated by `|` at the top level.
//!
//! A pattern is compiled into a sequence of steps (`regex`, `pattern`) and
//! matched by a backtracking search over that sequence (`engine`). Every
//! executable function is verified against a contract over the
//! mathematical views of the types.

pub mod anchoring;
pub mod ascii;
pub mod bracket_expression;
pub mod char_cursor;
pub mod character_class;
pub mod engine;
pub mod evaluated_step;
pub mod grep_error;
pub mod grep_rustico;
pub mod literal;
pub mod pattern;
pub mod regex;
pub mod regex_clase;
pub mod regex_rep;
pub mod regex_step;
pub mod regex_value;
pub mod views;
