//! Cell addressing: a column letter `A`..`Z` and a row number.
//!
//! An address is written as the column's letter followed by the row in
//! decimal digits, such as `A1` or `C12`. Reading accepts a letter of either
//! case; writing gives the upper-case letter.

use vstd::prelude::*;
use vstd::string::StrSliceExecFns;
use vstd::string::StringExecFns;
use vstd::string::StringSliceAdditionalSpecFns;

verus! {

/// Number of rows that the grid shows; rows are counted from zero.
pub const ROW_LEN: u32 = 100;

/// Whether a byte is an ASCII letter.
pub open spec fn is_letter(b: u8) -> bool {
    65 <= b <= 90 || 97 <= b <= 122
}

/// Whether a byte is an ASCII decimal digit.
pub open spec fn is_digit(b: u8) -> bool {
    48 <= b <= 57
}

/// Position in the alphabet of an ASCII letter of either case.
pub open spec fn letter_position(b: u8) -> int {
    if b >= 97 {
        b - 97
    } else {
        b - 65
    }
}

/// The number that the decimal digits `text[from..to)` write.
pub open spec fn decimal(text: Seq<u8>, from: int, to: int) -> int
    decreases to - from,
{
    if from < to {
        decimal(text, from, to - 1) * 10 + (text[to - 1] - 48)
    } else {
        0
    }
}

/// Whether all bytes of `text[from..to)` are decimal digits.
pub open spec fn all_digits(text: Seq<u8>, from: int, to: int) -> bool {
    forall|i: int| from <= i < to ==> is_digit(#[trigger] text[i])
}

/// The address that a text writes: one letter and then one or more decimal
/// digits that give a row of at most 255. Any other text writes none.
pub open spec fn key_of_text(text: Seq<u8>) -> Option<Key> {
    if text.len() >= 2 && is_letter(text[0]) && all_digits(text, 1, text.len() as int) && decimal(
        text,
        1,
        text.len() as int,
    ) <= 255 {
        Some(Key::at(letter_position(text[0]), decimal(text, 1, text.len() as int)))
    } else {
        None
    }
}

/// The byte that names a column: its upper-case letter.
pub open spec fn column_byte(position: int) -> u8 {
    (65 + position) as u8
}

/// The decimal digits that write a number below 1000, without leading zeros.
pub open spec fn number_bytes(n: int) -> Seq<u8> {
    if n < 10 {
        seq![(48 + n) as u8]
    } else if n < 100 {
        seq![(48 + n / 10) as u8, (48 + n % 10) as u8]
    } else {
        seq![(48 + n / 100) as u8, (48 + n / 10 % 10) as u8, (48 + n % 10) as u8]
    }
}

/// The bytes of the address of a column and a row, such as `A1`.
pub open spec fn label_bytes(column: int, line: int) -> Seq<u8> {
    seq![column_byte(column)] + number_bytes(line)
}

/// The characters that ASCII bytes stand for.
pub open spec fn as_chars(bytes: Seq<u8>) -> Seq<char> {
    bytes.map_values(|b: u8| b as char)
}

/// One of the 26 columns, `A` to `Z`.
#[derive(Clone, Copy, Debug, PartialEq, Eq, Structural, Hash)]
pub struct ColKey(u8);

impl ColKey {
    /// Number of columns.
    pub const LEN: u8 = 26;

    #[verifier::type_invariant]
    spec fn in_range(self) -> bool {
        self.0 < 26
    }

    /// Position of the column, `0` for `A` up to `25` for `Z`.
    pub closed spec fn position(&self) -> int {
        self.0 as int
    }

    /// The column at a position.
    pub closed spec fn at(position: int) -> ColKey {
        ColKey(position as u8)
    }

    /// The column at a position below 26 has that position.
    pub proof fn lemma_at(position: int)
        requires
            0 <= position < 26,
        ensures
            ColKey::at(position).position() == position,
    {
    }

    /// The column of an upper-case ASCII letter, and nothing for any other byte.
    pub fn try_from_u8(n: u8) -> (r: Option<ColKey>)
        ensures
            r is Some <==> 65 <= n <= 90,
            r matches Some(col) ==> col == ColKey::at(n - 65),
    {
        if 65 <= n && n <= 90 {
            Some(ColKey(n - 65))
        } else {
            None
        }
    }

    /// The column of an upper-case ASCII letter.
    pub fn from_u8(n: u8) -> (col: ColKey)
        requires
            65 <= n <= 90,
        ensures
            col == ColKey::at(n - 65),
    {
        ColKey(n - 65)
    }

    /// The column of an ASCII letter of either case, and nothing for any other
    /// byte.
    pub fn from_letter(n: u8) -> (r: Option<ColKey>)
        ensures
            r is Some <==> is_letter(n),
            r matches Some(col) ==> col == ColKey::at(letter_position(n)),
    {
        if 97 <= n && n <= 122 {
            Some(ColKey(n - 97))
        } else {
            ColKey::try_from_u8(n)
        }
    }

    /// Position of the column, `0` for `A` up to `25` for `Z`.
    pub fn index(&self) -> (i: u8)
        ensures
            i == self.position(),
            i < 26,
            ColKey::at(i as int) == *self,
    {
        proof {
            use_type_invariant(self);
        }
        self.0
    }

    /// The upper-case ASCII letter that names the column.
    pub fn letter(&self) -> (b: u8)
        ensures
            b == column_byte(self.position()),
            65 <= b <= 90,
    {
        proof {
            use_type_invariant(self);
        }
        65 + self.0
    }

    /// The text that names the column: its upper-case letter.
    pub fn label(&self) -> (label: String)
        ensures
            label@ == as_chars(seq![column_byte(self.position())]),
    {
        proof {
            use_type_invariant(self);
            reveal_strlit("ABCDEFGHIJKLMNOPQRSTUVWXYZ");
            assert(as_chars(seq![column_byte(self.position())]) =~= seq![
                column_byte(self.position()) as char,
            ]);
        }
        String::from_str(pick("ABCDEFGHIJKLMNOPQRSTUVWXYZ", self.0 as usize))
    }
}

impl Default for ColKey {
    /// Column `A`.
    fn default() -> (col: ColKey)
        ensures
            col == ColKey::at(0),
    {
        ColKey(0)
    }
}

/// A grid position: a column and a row.
#[derive(Clone, Copy, Debug, PartialEq, Eq, Structural, Hash)]
pub struct Key(ColKey, u8);

impl Key {
    /// Position of the key's column, below 26.
    pub closed spec fn column(&self) -> int {
        self.0.position()
    }

    /// The key's row, below 256.
    pub closed spec fn line(&self) -> int {
        self.1 as int
    }

    /// The key at a column position and a row.
    pub closed spec fn at(column: int, line: int) -> Key {
        Key(ColKey::at(column), line as u8)
    }

    /// The number that stands for the key in maps: the column position in the
    /// high byte and the row in the low byte.
    pub open spec fn spec_code(&self) -> u16 {
        (self.column() * 256 + self.line()) as u16
    }

    /// The key that a code stands for, and none where the code's high byte
    /// is no column.
    pub open spec fn of_code(code: u16) -> Option<Key> {
        if code < 6656 {
            Some(Key::at(code as int / 256, code as int % 256))
        } else {
            None
        }
    }

    /// The key at a column position below 26 and a row below 256 has that
    /// column and row, and its code is made of the two.
    pub proof fn lemma_at(column: int, line: int)
        requires
            0 <= column < 26,
            0 <= line < 256,
        ensures
            Key::at(column, line).column() == column,
            Key::at(column, line).line() == line,
            Key::at(column, line).spec_code() == column * 256 + line,
    {
        ColKey::lemma_at(column);
    }

    /// A key whose column and row are in range is the key at that column and
    /// row.
    pub proof fn lemma_parts(key: Key)
        requires
            0 <= key.column() < 26,
            0 <= key.line() < 256,
        ensures
            Key::at(key.column(), key.line()) == key,
    {
    }

    /// An address that the library writes is read back as the same key: it is
    /// the column's letter and then digits that write the row.
    pub proof fn lemma_label_reads_back(column: int, line: int)
        requires
            0 <= column < 26,
            0 <= line < 256,
        ensures
            key_of_text(label_bytes(column, line)) == Some(Key::at(column, line)),
            2 <= label_bytes(column, line).len() <= 4,
            label_bytes(column, line)[0] == column_byte(column),
            all_digits(label_bytes(column, line), 1, label_bytes(column, line).len() as int),
            decimal(label_bytes(column, line), 1, label_bytes(column, line).len() as int) == line,
    {
        let text = label_bytes(column, line);
        let n = text.len() as int;
        reveal_with_fuel(decimal, 4);
        assert(all_digits(text, 1, n));
        assert(decimal(text, 1, n) == line);
    }

    /// The key of a column and a row.
    pub fn new(col: ColKey, row: u8) -> (key: Key)
        ensures
            key == Key::at(col.position(), row as int),
            key.column() == col.position(),
            key.line() == row,
    {
        proof {
            use_type_invariant(&col);
        }
        Key(col, row)
    }

    /// The key's column.
    pub fn col(&self) -> (col: ColKey)
        ensures
            col.position() == self.column(),
            col == ColKey::at(self.column()),
    {
        proof {
            use_type_invariant(&self.0);
        }
        self.0
    }

    /// The key's row.
    pub fn row(&self) -> (row: u8)
        ensures
            row == self.line(),
    {
        self.1
    }

    /// The number that stands for the key in maps and widget identifiers.
    /// The key can be had back from it.
    #[verifier::when_used_as_spec(spec_code)]
    pub fn code(&self) -> (code: u16)
        ensures
            code == self.spec_code(),
            code == self.column() * 256 + self.line(),
            0 <= self.column() < 26,
            0 <= self.line() < 256,
            Key::of_code(code) == Some(*self),
    {
        proof {
            use_type_invariant(&self.0);
        }
        let col: u16 = self.0.index() as u16;
        col * 256 + self.1 as u16
    }

    /// The key that a code stands for, and nothing where the code's high byte
    /// is no column.
    pub fn from_code(code: u16) -> (r: Option<Key>)
        ensures
            r == Key::of_code(code),
            r matches Some(key) ==> key.spec_code() == code,
    {
        if code < 6656 {
            let col: u8 = (code / 256) as u8;
            let row: u8 = (code % 256) as u8;
            proof {
                Key::lemma_at(col as int, row as int);
            }
            Some(Key(ColKey(col), row))
        } else {
            None
        }
    }

    /// The address as text, such as `A1`: the column's upper-case letter and
    /// the row in decimal digits. Reading the text gives the key back.
    pub fn label(&self) -> (label: String)
        ensures
            label@ == as_chars(label_bytes(self.column(), self.line())),
            key_of_text(label_bytes(self.column(), self.line())) == Some(*self),
    {
        proof {
            use_type_invariant(&self.0);
            Key::lemma_label_reads_back(self.column(), self.line());
        }
        let mut label = self.0.label();
        let row = self.1;
        if row >= 100 {
            label.append(digit_text(row / 100));
        }
        if row >= 10 {
            label.append(digit_text(row / 10 % 10));
        }
        label.append(digit_text(row % 10));
        assert(label@ =~= as_chars(label_bytes(self.column(), self.line())));
        label
    }

    /// Reads an address such as `A1` or `c12`.
    pub fn from_text(text: &[u8]) -> (r: Option<Key>)
        ensures
            r == key_of_text(text@),
    {
        if text.len() < 2 {
            return None;
        }
        let col = match ColKey::from_letter(text[0]) {
            Some(col) => col,
            None => {
                return None;
            },
        };
        let mut i: usize = 1;
        while i < text.len()
            invariant
                1 <= i <= text.len(),
                all_digits(text@, 1, i as int),
            decreases text.len() - i,
        {
            let b = text[i];
            if !(48 <= b && b <= 57) {
                return None;
            }
            i = i + 1;
        }
        match read_row(text, 1, text.len()) {
            Some(row) => Some(Key::new(col, row)),
            None => None,
        }
    }
}

impl Default for Key {
    /// The key `A0`.
    fn default() -> (key: Key)
        ensures
            key == Key::at(0, 0),
    {
        Key(ColKey(0), 0)
    }
}

/// The key that an address such as `A1` writes.
pub fn make_key(k: &str) -> (key: Key)
    requires
        key_of_text(k.spec_bytes()) is Some,
    ensures
        Some(key) == key_of_text(k.spec_bytes()),
{
    match Key::from_text(k.as_bytes()) {
        Some(key) => key,
        None => Key::default(),
    }
}

/// The number that the decimal digits `text[from..to)` write, where it is at
/// most 255.
pub(crate) fn read_row(text: &[u8], from: usize, to: usize) -> (r: Option<u8>)
    requires
        from <= to <= text.len(),
        all_digits(text@, from as int, to as int),
    ensures
        r is Some <==> decimal(text@, from as int, to as int) <= 255,
        r matches Some(row) ==> row == decimal(text@, from as int, to as int),
{
    let mut row: u8 = 0;
    let mut i: usize = from;
    while i < to
        invariant
            from <= i <= to <= text.len(),
            all_digits(text@, from as int, to as int),
            row == decimal(text@, from as int, i as int),
        decreases to - i,
    {
        let b = text[i];
        assert(is_digit(text@[i as int]));
        let digit = b - 48;
        if row > 25 || (row == 25 && digit > 5) {
            proof {
                lemma_decimal_grows(text@, from as int, i as int + 1, to as int);
            }
            return None;
        }
        row = row * 10 + digit;
        i = i + 1;
    }
    Some(row)
}

/// Reading more digits never gives a smaller number.
proof fn lemma_decimal_grows(text: Seq<u8>, from: int, mid: int, to: int)
    requires
        0 <= from <= mid <= to <= text.len(),
        all_digits(text, from, to),
    ensures
        0 <= decimal(text, from, mid) <= decimal(text, from, to),
    decreases to - from,
{
    if from < to {
        assert(is_digit(text[to - 1]));
        assert(all_digits(text, from, to - 1));
        if mid < to {
            lemma_decimal_grows(text, from, mid, to - 1);
        } else {
            lemma_decimal_grows(text, from, to - 1, to - 1);
        }
    }
}

/// The text of one ASCII character out of a table of them.
fn pick(table: &'static str, i: usize) -> (text: &'static str)
    requires
        table.is_ascii(),
        i < table@.len() <= 26,
    ensures
        text@ == seq![table@[i as int]],
{
    let text = table.substring_ascii(i, i + 1);
    assert(text@ =~= seq![table@[i as int]]);
    text
}

/// The text of a decimal digit.
fn digit_text(d: u8) -> (text: &'static str)
    requires
        d < 10,
    ensures
        text@ == as_chars(seq![(48 + d) as u8]),
{
    proof {
        reveal_strlit("0123456789");
        assert(as_chars(seq![(48 + d) as u8]) =~= seq![(48 + d) as u8 as char]);
    }
    pick("0123456789", d as usize)
}

} // verus!
