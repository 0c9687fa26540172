//! What a table view needs of the grid: its size, and the key that belongs to
//! a position of the table.

use crate::key::{ColKey, Key, ROW_LEN};
use vstd::prelude::*;

verus! {

/// Whether the key of a table position has changed.
#[derive(Clone, Copy, Debug, PartialEq, Eq, Structural)]
pub enum TokenChanges {
    /// The position keeps its key.
    Unchanged,
    /// The position may have another key than before.
    Any,
}

/// The key of the table position in column `col` and row `row`, both counted
/// from zero, and nothing outside the 26 columns and [`ROW_LEN`] rows of the
/// grid.
pub open spec fn key_at(col: u32, row: u32) -> Option<Key> {
    if col < 26 && row < ROW_LEN {
        Some(Key::at(col as int, row as int))
    } else {
        None
    }
}

/// The number of columns and of rows of the grid.
pub fn grid_len() -> (len: (u32, u32))
    ensures
        len == (26u32, ROW_LEN),
{
    (ColKey::LEN as u32, ROW_LEN)
}

/// The key of a table position, and nothing outside the grid.
pub fn key_of_index(col: u32, row: u32) -> (key: Option<Key>)
    ensures
        key == key_at(col, row),
{
    if col >= ColKey::LEN as u32 || row >= ROW_LEN {
        return None;
    }
    proof {
        ColKey::lemma_at(col as int);
    }
    match ColKey::try_from_u8(65 + col as u8) {
        Some(column) => Some(Key::new(column, row as u8)),
        None => None,
    }
}

/// Brings the key that a table position holds up to date. A position outside
/// the grid holds no key and always counts as changed; a position inside
/// counts as changed where it held another key or none.
pub fn update_token(col: u32, row: u32, token: &mut Option<Key>) -> (changes: TokenChanges)
    ensures
        *final(token) == key_at(col, row),
        changes == (if key_at(col, row) is Some && *old(token) == key_at(col, row) {
            TokenChanges::Unchanged
        } else {
            TokenChanges::Any
        }),
{
    let key = match key_of_index(col, row) {
        Some(key) => key,
        None => {
            *token = None;
            return TokenChanges::Any;
        },
    };
    let same = match token {
        Some(held) => *held == key,
        None => false,
    };
    if same {
        TokenChanges::Unchanged
    } else {
        *token = Some(key);
        TokenChanges::Any
    }
}

} // verus!
