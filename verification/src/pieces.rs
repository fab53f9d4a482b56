//! Piece naming and colour helpers: the closed set of piece shapes, the
//! two-sided colour, and the conversions between shape names, one-letter
//! symbols and numeric codes.

use vstd::prelude::*;

verus! {

#[derive(Debug, PartialEq, Eq, Structural, Clone, Copy)]
#[allow(non_camel_case_types)]
pub enum PieceColor {
    BLACK,
    WHITE,
}

impl PieceColor {
    /// `true` stands for the white side, `false` for the black one.
    pub fn from_bool(value: bool) -> (c: PieceColor)
        ensures
            c == (if value {
                PieceColor::WHITE
            } else {
                PieceColor::BLACK
            }),
    {
        match value {
            false => PieceColor::BLACK,
            true => PieceColor::WHITE,
        }
    }
}

#[derive(Debug, PartialEq, Eq, Structural, Clone, Copy)]
#[allow(non_camel_case_types)]
pub enum PieceType {
    NULL,
    PAWN,
    KNIGHT,
    BISHOP,
    ROOK,
    QUEEN,
    KING,
}

/// The shape a numeric code stands for; codes outside 0..=6 fall back to NULL.
pub open spec fn spec_type_of_u8(value: u8) -> PieceType {
    match value {
        1u8 => PieceType::PAWN,
        2u8 => PieceType::KNIGHT,
        3u8 => PieceType::BISHOP,
        4u8 => PieceType::ROOK,
        5u8 => PieceType::QUEEN,
        6u8 => PieceType::KING,
        _ => PieceType::NULL,
    }
}

impl PieceType {
    pub fn from_u8(value: u8) -> (t: PieceType)
        ensures
            t == spec_type_of_u8(value),
    {
        match value {
            0 => PieceType::NULL,
            1 => PieceType::PAWN,
            2 => PieceType::KNIGHT,
            3 => PieceType::BISHOP,
            4 => PieceType::ROOK,
            5 => PieceType::QUEEN,
            6 => PieceType::KING,
            _ => PieceType::NULL,
        }
    }
}

/// ASCII lowercasing of one character; anything but an ASCII capital
/// letter stays as it is.
pub open spec fn lower_char(c: char) -> char {
    match c {
        'A' => 'a',
        'B' => 'b',
        'C' => 'c',
        'D' => 'd',
        'E' => 'e',
        'F' => 'f',
        'G' => 'g',
        'H' => 'h',
        'I' => 'i',
        'J' => 'j',
        'K' => 'k',
        'L' => 'l',
        'M' => 'm',
        'N' => 'n',
        'O' => 'o',
        'P' => 'p',
        'Q' => 'q',
        'R' => 'r',
        'S' => 's',
        'T' => 't',
        'U' => 'u',
        'V' => 'v',
        'W' => 'w',
        'X' => 'x',
        'Y' => 'y',
        'Z' => 'z',
        _ => c,
    }
}

/// ASCII lowercasing of a character sequence.
pub open spec fn lower_str(s: Seq<char>) -> Seq<char> {
    s.map_values(|c: char| lower_char(c))
}

pub fn lower_char_for(c: char) -> (r: char)
    ensures
        r == lower_char(c),
{
    match c {
        'A' => 'a',
        'B' => 'b',
        'C' => 'c',
        'D' => 'd',
        'E' => 'e',
        'F' => 'f',
        'G' => 'g',
        'H' => 'h',
        'I' => 'i',
        'J' => 'j',
        'K' => 'k',
        'L' => 'l',
        'M' => 'm',
        'N' => 'n',
        'O' => 'o',
        'P' => 'p',
        'Q' => 'q',
        'R' => 'r',
        'S' => 's',
        'T' => 't',
        'U' => 'u',
        'V' => 'v',
        'W' => 'w',
        'X' => 'x',
        'Y' => 'y',
        'Z' => 'z',
        _ => c,
    }
}

/// Whether the ASCII-lowercased first string equals the second one.
fn matches_lower(name: &str, lit: &str) -> (r: bool)
    ensures
        r == (lower_str(name@) == lit@),
{
    let n = name.unicode_len();
    if n != lit.unicode_len() {
        proof {
            assert(lower_str(name@).len() == name@.len());
        }
        return false;
    }
    let mut i: usize = 0;
    while i < n
        invariant
            n == name@.len(),
            n == lit@.len(),
            i <= n,
            forall|j: int| 0 <= j < i ==> lower_char(name@[j]) == lit@[j],
        decreases n - i,
    {
        let c = name.get_char(i);
        let l = lit.get_char(i);
        if lower_char_for(c) != l {
            proof {
                assert(lower_str(name@)[i as int] == lower_char(name@[i as int]));
            }
            return false;
        }
        i = i + 1;
    }
    proof {
        assert(lower_str(name@) =~= lit@);
    }
    true
}

/// The shape a (case-insensitive) name denotes; unknown names fall back
/// to NULL.
pub open spec fn spec_name_to_type(s: Seq<char>) -> PieceType {
    if lower_str(s) == "pawn"@ {
        PieceType::PAWN
    } else if lower_str(s) == "knight"@ {
        PieceType::KNIGHT
    } else if lower_str(s) == "bishop"@ {
        PieceType::BISHOP
    } else if lower_str(s) == "rook"@ {
        PieceType::ROOK
    } else if lower_str(s) == "queen"@ {
        PieceType::QUEEN
    } else if lower_str(s) == "king"@ {
        PieceType::KING
    } else {
        PieceType::NULL
    }
}

pub fn name_to_type(name: String) -> (t: PieceType)
    ensures
        t == spec_name_to_type(name@),
{
    let n = name.as_str();
    if matches_lower(n, "pawn") {
        PieceType::PAWN
    } else if matches_lower(n, "knight") {
        PieceType::KNIGHT
    } else if matches_lower(n, "bishop") {
        PieceType::BISHOP
    } else if matches_lower(n, "rook") {
        PieceType::ROOK
    } else if matches_lower(n, "queen") {
        PieceType::QUEEN
    } else if matches_lower(n, "king") {
        PieceType::KING
    } else {
        PieceType::NULL
    }
}

/// The lower-case name of a shape.
pub open spec fn spec_type_to_name(t: PieceType) -> Seq<char> {
    match t {
        PieceType::NULL => "null"@,
        PieceType::PAWN => "pawn"@,
        PieceType::KNIGHT => "knight"@,
        PieceType::BISHOP => "bishop"@,
        PieceType::ROOK => "rook"@,
        PieceType::QUEEN => "queen"@,
        PieceType::KING => "king"@,
    }
}

pub fn type_to_name(piece_type: PieceType) -> (r: String)
    ensures
        r@ == spec_type_to_name(piece_type),
{
    match piece_type {
        PieceType::NULL => "null".to_owned(),
        PieceType::PAWN => "pawn".to_owned(),
        PieceType::KNIGHT => "knight".to_owned(),
        PieceType::BISHOP => "bishop".to_owned(),
        PieceType::ROOK => "rook".to_owned(),
        PieceType::QUEEN => "queen".to_owned(),
        PieceType::KING => "king".to_owned(),
    }
}

/// The one-letter symbol of a (case-insensitive) shape name; unknown
/// names get 'x'.
pub open spec fn spec_name_to_symbol(s: Seq<char>) -> char {
    if lower_str(s) == "pawn"@ {
        'p'
    } else if lower_str(s) == "knight"@ {
        'n'
    } else if lower_str(s) == "bishop"@ {
        'b'
    } else if lower_str(s) == "rook"@ {
        'r'
    } else if lower_str(s) == "queen"@ {
        'q'
    } else if lower_str(s) == "king"@ {
        'k'
    } else {
        'x'
    }
}

pub fn name_to_symbol(name: String) -> (c: char)
    ensures
        c == spec_name_to_symbol(name@),
{
    let n = name.as_str();
    if matches_lower(n, "pawn") {
        'p'
    } else if matches_lower(n, "knight") {
        'n'
    } else if matches_lower(n, "bishop") {
        'b'
    } else if matches_lower(n, "rook") {
        'r'
    } else if matches_lower(n, "queen") {
        'q'
    } else if matches_lower(n, "king") {
        'k'
    } else {
        'x'
    }
}

/// The shape name a (case-insensitive) one-letter symbol denotes; unknown
/// symbols get "null".
pub open spec fn spec_symbol_to_name(symbol: char) -> Seq<char> {
    match lower_char(symbol) {
        'p' => "pawn"@,
        'n' => "knight"@,
        'b' => "bishop"@,
        'r' => "rook"@,
        'q' => "queen"@,
        'k' => "king"@,
        _ => "null"@,
    }
}

pub fn symbol_to_name(symbol: char) -> (r: String)
    ensures
        r@ == spec_symbol_to_name(symbol),
{
    let symbol = lower_char_for(symbol);
    match symbol {
        'p' => "pawn".to_owned(),
        'n' => "knight".to_owned(),
        'b' => "bishop".to_owned(),
        'r' => "rook".to_owned(),
        'q' => "queen".to_owned(),
        'k' => "king".to_owned(),
        _ => "null".to_owned(),
    }
}

} // verus!
