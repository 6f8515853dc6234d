//! A lexer-agnostic packrat parsing library: memoized backtracking parser
//! combinators over a pluggable lexical source.
//!
//! The heart of the crate is [`engine::PackRat`], the engine state one parse
//! run owns: it pulls lexical items lazily from a [`engine::Lexer`], keeps a
//! dual cursor (item index plus intra-item offset), matches text patterns
//! and tokens through [`engine::PackRat::epat`] and [`engine::PackRat::etok`],
//! backtracks and memoizes sub-parsers through [`engine::PackRat::epar`], and
//! records what failed where for later reporting.
//!
//! Around it stand [`pattern`], the patterns the matchers consume;
//! [`indent`], an indentation-sensitive lexical source; [`blex`], a
//! character-at-a-time one; [`input`], a raw-text cursor with line/column
//! error reporting; and [`markup`], small building blocks of a lightweight
//! markup notation.

pub mod blex;
pub mod engine;
pub mod indent;
pub mod input;
pub mod markup;
pub mod pattern;
pub mod scenario;
