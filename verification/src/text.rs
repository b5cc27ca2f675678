//! Text for digits, masks and positions, as it appears in messages and in the
//! printed board.
use vstd::prelude::*;

verus! {

/// The character of digit `d`; `'0'` for anything but 1 to 9.
pub open spec fn digit_char(d: int) -> char {
    if d == 1 {
        '1'
    } else if d == 2 {
        '2'
    } else if d == 3 {
        '3'
    } else if d == 4 {
        '4'
    } else if d == 5 {
        '5'
    } else if d == 6 {
        '6'
    } else if d == 7 {
        '7'
    } else if d == 8 {
        '8'
    } else if d == 9 {
        '9'
    } else {
        '0'
    }
}

/// The binary numeral of `mask`, most significant bit first, padded with
/// zeros on the left to at least `width` characters (and at least one).
pub open spec fn binary_text(mask: usize, width: nat) -> Seq<char>
    decreases mask + width,
{
    if mask < 2 && width <= 1 {
        seq![digit_char((mask % 2) as int)]
    } else {
        binary_text(mask / 2, if width >= 1 { (width - 1) as nat } else { 0 }).push(
            digit_char((mask % 2) as int),
        )
    }
}

/// A one-based position as a pair in parentheses: `(row, col)`.
pub open spec fn position_text(row: int, col: int) -> Seq<char> {
    seq!['(', digit_char(row), ',', ' ', digit_char(col), ')']
}

/// The text of digit `d`: one character.
pub fn digit_str(d: usize) -> (s: &'static str)
    ensures
        s@ == seq![digit_char(d as int)],
{
    proof {
        reveal_strlit("0");
        reveal_strlit("1");
        reveal_strlit("2");
        reveal_strlit("3");
        reveal_strlit("4");
        reveal_strlit("5");
        reveal_strlit("6");
        reveal_strlit("7");
        reveal_strlit("8");
        reveal_strlit("9");
    }
    let s: &'static str = if d == 1 {
        "1"
    } else if d == 2 {
        "2"
    } else if d == 3 {
        "3"
    } else if d == 4 {
        "4"
    } else if d == 5 {
        "5"
    } else if d == 6 {
        "6"
    } else if d == 7 {
        "7"
    } else if d == 8 {
        "8"
    } else if d == 9 {
        "9"
    } else {
        "0"
    };
    assert(s@ =~= seq![digit_char(d as int)]);
    s
}

/// Writes `mask` in binary, padded with zeros to at least `width` characters.
pub fn binary_string(mask: usize, width: usize) -> (s: String)
    ensures
        s@ == binary_text(mask, width as nat),
    decreases mask + width,
{
    if mask < 2 && width <= 1 {
        let s = String::from_str(digit_str(mask % 2));
        s
    } else {
        let rest: usize = if width >= 1 {
            width - 1
        } else {
            0
        };
        let mut s = binary_string(mask / 2, rest);
        s.append(digit_str(mask % 2));
        s
    }
}

/// Writes a one-based position as `(row, col)`.
pub fn position_string(row: usize, col: usize) -> (s: String)
    ensures
        s@ == position_text(row as int, col as int),
{
    proof {
        reveal_strlit("(");
        reveal_strlit(", ");
        reveal_strlit(")");
    }
    let mut s = String::from_str("(");
    s.append(digit_str(row));
    s.append(", ");
    s.append(digit_str(col));
    s.append(")");
    assert(s@ =~= position_text(row as int, col as int));
    s
}

} // verus!
