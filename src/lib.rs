//! Reader for the fixed-column macromolecular structure text format.
//!
//! Lines are lexed one at a time into typed records, folded into a
//! hierarchical structure (models, chains, residues, atoms), and after the
//! scan the declared reference sequences and residue modifications are
//! reconciled with what was observed.

pub mod assembler;
pub mod columns;
pub mod error;
pub mod lexer;
pub mod number;
pub mod reconcile;
pub mod record;
pub mod reference;
pub mod structure;

pub use assembler::{parse, Assembler};
pub use error::{Diagnostic, Issue, Location, Severity, StrictnessLevel};
pub use number::Decimal;
pub use structure::Pdb;
