//! The letter alphabet of the script: uppercase ASCII letters, the
//! separators that delimit words, and the fixed per-letter connection table.

use vstd::prelude::*;

verus! {

/// A letter of the script: an uppercase ASCII byte, `A` through `Z`.
pub open spec fn is_letter(b: u8) -> bool {
    ('A' as u8) <= b <= ('Z' as u8)
}

/// A lowercase ASCII letter, folded to its uppercase form before use.
pub open spec fn is_lowercase_letter(b: u8) -> bool {
    ('a' as u8) <= b <= ('z' as u8)
}

/// The bytes that separate words: the ASCII whitespace characters.
pub open spec fn is_separator(b: u8) -> bool {
    b == 9 || b == 10 || b == 11 || b == 12 || b == 13 || b == 32
}

/// Absolute distance between two letters' positions in the alphabet.
pub open spec fn letter_distance(a: u8, b: u8) -> int {
    if a >= b {
        a - b
    } else {
        b - a
    }
}

/// The fixed connection table of the script: every letter connects to a fixed
/// string of earlier letters, and `A` connects to nothing. The table is a
/// creative artifact of the script's design, not derived from a rule.
pub open spec fn connection_row(letter: u8) -> Seq<u8> {
    if letter == ('B' as u8) {
        seq![('A' as u8)]
    } else if letter == ('C' as u8) {
        seq![('A' as u8), ('B' as u8)]
    } else if letter == ('D' as u8) {
        seq![('A' as u8), ('B' as u8), ('C' as u8)]
    } else if letter == ('E' as u8) {
        seq![('A' as u8), ('C' as u8), ('D' as u8)]
    } else if letter == ('F' as u8) {
        seq![('A' as u8), ('B' as u8), ('D' as u8), ('E' as u8)]
    } else if letter == ('G' as u8) {
        seq![('A' as u8), ('E' as u8), ('F' as u8)]
    } else if letter == ('H' as u8) {
        seq![('A' as u8), ('B' as u8), ('E' as u8), ('F' as u8), ('G' as u8)]
    } else if letter == ('I' as u8) {
        seq![('A' as u8), ('B' as u8), ('C' as u8), ('E' as u8), ('G' as u8), ('H' as u8)]
    } else if letter == ('J' as u8) {
        seq![('A' as u8), ('C' as u8), ('D' as u8), ('E' as u8), ('F' as u8), ('G' as u8), ('H' as u8), ('I' as u8)]
    } else if letter == ('K' as u8) {
        seq![('A' as u8), ('B' as u8), ('C' as u8), ('I' as u8), ('J' as u8)]
    } else if letter == ('L' as u8) {
        seq![('A' as u8), ('C' as u8), ('D' as u8), ('I' as u8), ('J' as u8), ('K' as u8)]
    } else if letter == ('M' as u8) {
        seq![('A' as u8), ('B' as u8), ('C' as u8), ('D' as u8), ('E' as u8), ('I' as u8), ('K' as u8), ('L' as u8)]
    } else if letter == ('N' as u8) {
        seq![('A' as u8), ('C' as u8), ('D' as u8), ('E' as u8), ('F' as u8), ('H' as u8), ('J' as u8), ('K' as u8), ('M' as u8)]
    } else if letter == ('O' as u8) {
        seq![('A' as u8), ('B' as u8), ('E' as u8), ('F' as u8), ('G' as u8), ('I' as u8), ('L' as u8), ('M' as u8), ('N' as u8)]
    } else if letter == ('P' as u8) {
        seq![('A' as u8), ('C' as u8), ('G' as u8), ('H' as u8), ('I' as u8), ('K' as u8), ('L' as u8), ('N' as u8), ('O' as u8)]
    } else if letter == ('Q' as u8) {
        seq![('A' as u8), ('B' as u8), ('C' as u8), ('D' as u8), ('E' as u8), ('H' as u8), ('I' as u8), ('J' as u8), ('K' as u8), ('L' as u8), ('M' as u8), ('P' as u8)]
    } else if letter == ('R' as u8) {
        seq![('A' as u8), ('B' as u8), ('C' as u8), ('D' as u8), ('E' as u8), ('G' as u8), ('H' as u8), ('I' as u8), ('K' as u8), ('L' as u8), ('O' as u8), ('P' as u8), ('Q' as u8)]
    } else if letter == ('S' as u8) {
        seq![('A' as u8), ('D' as u8), ('E' as u8), ('F' as u8), ('G' as u8), ('H' as u8), ('I' as u8), ('L' as u8), ('M' as u8), ('O' as u8)]
    } else if letter == ('T' as u8) {
        seq![('A' as u8), ('C' as u8), ('D' as u8), ('E' as u8), ('F' as u8), ('H' as u8), ('I' as u8), ('J' as u8), ('L' as u8), ('M' as u8), ('N' as u8), ('O' as u8), ('Q' as u8), ('S' as u8)]
    } else if letter == ('U' as u8) {
        seq![('A' as u8), ('C' as u8), ('D' as u8), ('F' as u8), ('G' as u8), ('I' as u8), ('J' as u8), ('K' as u8), ('M' as u8), ('P' as u8), ('Q' as u8), ('R' as u8), ('S' as u8), ('T' as u8)]
    } else if letter == ('V' as u8) {
        seq![('A' as u8), ('B' as u8), ('D' as u8), ('E' as u8), ('F' as u8), ('H' as u8), ('J' as u8), ('K' as u8), ('L' as u8), ('N' as u8), ('P' as u8), ('Q' as u8), ('S' as u8)]
    } else if letter == ('W' as u8) {
        seq![('A' as u8), ('V' as u8)]
    } else if letter == ('X' as u8) {
        seq![('A' as u8), ('W' as u8)]
    } else if letter == ('Y' as u8) {
        seq![('A' as u8), ('X' as u8)]
    } else if letter == ('Z' as u8) {
        seq![('A' as u8), ('Y' as u8)]
    } else {
        Seq::empty()
    }
}

/// The connection table, as executable data: the letters that `letter`
/// connects to, in table order.
pub fn connections(letter: u8) -> (row: Vec<u8>)
    ensures
        row@ == connection_row(letter),
{
    if letter == ('B' as u8) {
        vec![('A' as u8)]
    } else if letter == ('C' as u8) {
        vec![('A' as u8), ('B' as u8)]
    } else if letter == ('D' as u8) {
        vec![('A' as u8), ('B' as u8), ('C' as u8)]
    } else if letter == ('E' as u8) {
        vec![('A' as u8), ('C' as u8), ('D' as u8)]
    } else if letter == ('F' as u8) {
        vec![('A' as u8), ('B' as u8), ('D' as u8), ('E' as u8)]
    } else if letter == ('G' as u8) {
        vec![('A' as u8), ('E' as u8), ('F' as u8)]
    } else if letter == ('H' as u8) {
        vec![('A' as u8), ('B' as u8), ('E' as u8), ('F' as u8), ('G' as u8)]
    } else if letter == ('I' as u8) {
        vec![('A' as u8), ('B' as u8), ('C' as u8), ('E' as u8), ('G' as u8), ('H' as u8)]
    } else if letter == ('J' as u8) {
        vec![('A' as u8), ('C' as u8), ('D' as u8), ('E' as u8), ('F' as u8), ('G' as u8), ('H' as u8), ('I' as u8)]
    } else if letter == ('K' as u8) {
        vec![('A' as u8), ('B' as u8), ('C' as u8), ('I' as u8), ('J' as u8)]
    } else if letter == ('L' as u8) {
        vec![('A' as u8), ('C' as u8), ('D' as u8), ('I' as u8), ('J' as u8), ('K' as u8)]
    } else if letter == ('M' as u8) {
        vec![('A' as u8), ('B' as u8), ('C' as u8), ('D' as u8), ('E' as u8), ('I' as u8), ('K' as u8), ('L' as u8)]
    } else if letter == ('N' as u8) {
        vec![('A' as u8), ('C' as u8), ('D' as u8), ('E' as u8), ('F' as u8), ('H' as u8), ('J' as u8), ('K' as u8), ('M' as u8)]
    } else if letter == ('O' as u8) {
        vec![('A' as u8), ('B' as u8), ('E' as u8), ('F' as u8), ('G' as u8), ('I' as u8), ('L' as u8), ('M' as u8), ('N' as u8)]
    } else if letter == ('P' as u8) {
        vec![('A' as u8), ('C' as u8), ('G' as u8), ('H' as u8), ('I' as u8), ('K' as u8), ('L' as u8), ('N' as u8), ('O' as u8)]
    } else if letter == ('Q' as u8) {
        vec![('A' as u8), ('B' as u8), ('C' as u8), ('D' as u8), ('E' as u8), ('H' as u8), ('I' as u8), ('J' as u8), ('K' as u8), ('L' as u8), ('M' as u8), ('P' as u8)]
    } else if letter == ('R' as u8) {
        vec![('A' as u8), ('B' as u8), ('C' as u8), ('D' as u8), ('E' as u8), ('G' as u8), ('H' as u8), ('I' as u8), ('K' as u8), ('L' as u8), ('O' as u8), ('P' as u8), ('Q' as u8)]
    } else if letter == ('S' as u8) {
        vec![('A' as u8), ('D' as u8), ('E' as u8), ('F' as u8), ('G' as u8), ('H' as u8), ('I' as u8), ('L' as u8), ('M' as u8), ('O' as u8)]
    } else if letter == ('T' as u8) {
        vec![('A' as u8), ('C' as u8), ('D' as u8), ('E' as u8), ('F' as u8), ('H' as u8), ('I' as u8), ('J' as u8), ('L' as u8), ('M' as u8), ('N' as u8), ('O' as u8), ('Q' as u8), ('S' as u8)]
    } else if letter == ('U' as u8) {
        vec![('A' as u8), ('C' as u8), ('D' as u8), ('F' as u8), ('G' as u8), ('I' as u8), ('J' as u8), ('K' as u8), ('M' as u8), ('P' as u8), ('Q' as u8), ('R' as u8), ('S' as u8), ('T' as u8)]
    } else if letter == ('V' as u8) {
        vec![('A' as u8), ('B' as u8), ('D' as u8), ('E' as u8), ('F' as u8), ('H' as u8), ('J' as u8), ('K' as u8), ('L' as u8), ('N' as u8), ('P' as u8), ('Q' as u8), ('S' as u8)]
    } else if letter == ('W' as u8) {
        vec![('A' as u8), ('V' as u8)]
    } else if letter == ('X' as u8) {
        vec![('A' as u8), ('W' as u8)]
    } else if letter == ('Y' as u8) {
        vec![('A' as u8), ('X' as u8)]
    } else if letter == ('Z' as u8) {
        vec![('A' as u8), ('Y' as u8)]
    } else {
        Vec::new()
    }
}

/// Whether `row` holds the letter `b`.
pub fn row_contains(row: &Vec<u8>, b: u8) -> (r: bool)
    ensures
        r == row@.contains(b),
{
    let mut j: usize = 0;
    while j < row.len()
        invariant
            j <= row@.len(),
            forall|k: int| 0 <= k < j ==> row@[k] != b,
        decreases row@.len() - j,
    {
        if row[j] == b {
            assert(row@.contains(b));
            return true;
        }
        j += 1;
    }
    false
}

} // verus!
