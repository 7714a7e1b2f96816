//! Reduce a source file to the text an editing agent needs, and rebuild the
//! full file from the agent's abbreviated reply.
//!
//! Symbols and their spans are extracted from a syntax tree (`hierarchy`,
//! `parsing`), each symbol is checked against a set of important symbols
//! (`symbol`), irrelevant bodies and import blocks are elided (`collapse`), and
//! an edited collapsed text is expanded back (`reconcile`). `round_trip` proves
//! that expanding an unedited collapsed text gives the source back.
pub mod collapse;
pub mod hierarchy;
pub mod instruction_parser;
pub mod markdown_parser;
pub mod parsing;
pub mod prompt;
pub mod reconcile;
pub mod round_trip;
pub mod sort;
pub mod span;
pub mod symbol;
pub mod text;

pub use collapse::{Collapse, CollapseReplacement, CollapsedDocument};
pub use hierarchy::{Capture, CaptureLabels, ExtractError, SymbolRecord};
pub use parsing::{CodeParsingContext, ContextError, SourceLanguage};
pub use reconcile::ReconcileError;
pub use span::Span;
pub use symbol::Symbol;
