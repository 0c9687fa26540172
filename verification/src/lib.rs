//! A verified spreadsheet core: cell addressing, the formula grammar, formula
//! evaluation, and whole-grid recalculation with its dependency rules.
//!
//! A grid ([`CellData`]) maps cell addresses ([`Key`]) to cells ([`Cell`]).
//! A cell holds the text that was typed into it. A text that starts with `=`
//! is a formula ([`Formula`]), read by [`parse`]; any other text is a number
//! or plain text. [`CellData::update_values`] gives every cell its value:
//! numbers first, then formulas as the cells that they refer to get theirs.
//! Formulas that never get a value, because they refer to a cell without one
//! or to each other in a ring, show a reference error.
//!
//! The library does not compute with numbers itself. The host chooses the
//! number type and hands in three functions: the arithmetic (see
//! [`Operation`]), the reading of a number from text, and the writing of a
//! number as text. Every contract is stated of what these functions
//! guarantee ([`Rules`]), and so holds for binary floating point as for any
//! other arithmetic.
//!
//! What holds of every recalculation, such as that it is idempotent and that
//! the order in which cells are visited does not matter, is proved in
//! [`laws`]. That every well-formed formula can be written as a text that
//! reads back as the same formula is proved in [`writing`].

pub mod cell;
pub mod formula;
pub mod grid;
pub mod key;
pub mod laws;
pub mod parser;
pub mod view;
pub mod writing;

pub use cell::{Cell, CellView, Rules};
pub use formula::{Arithmetic, EvalError, Expr, Formula, Operation};
pub use grid::{CellData, SheetView};
pub use key::{make_key, ColKey, Key, ROW_LEN};
pub use parser::{parse, FormulaParser, ParseError};
pub use view::{grid_len, key_of_index, update_token, TokenChanges};
