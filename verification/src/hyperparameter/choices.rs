//! The choices for a hyper-parameter as they stand in the configuration: whole
//! numbers between square brackets, separated by commas.

use vstd::prelude::*;
use crate::io::{natural, parse_natural};

verus! {

/// Whether a byte is passed over: a square bracket, a space, a tab, a line feed, a
/// vertical tab, a form feed or a carriage return.
pub open spec fn is_passed_over(b: u8) -> bool {
    b == 0x5b || b == 0x5d || b == 0x20 || (0x09 <= b <= 0x0d)
}

/// The whole number that a piece writes: decimal digits behind an optional sign,
/// if the number fits 32 bits.
pub open spec fn whole_number(piece: Seq<u8>) -> Option<int> {
    if piece.len() > 0 && piece[0] == 0x2d {
        match natural(piece.skip(1), 0x8000_0000) {
            Some(n) => Some(-(n as int)),
            None => None,
        }
    } else if piece.len() > 0 && piece[0] == 0x2b {
        match natural(piece.skip(1), 0x7fff_ffff) {
            Some(n) => Some(n as int),
            None => None,
        }
    } else {
        match natural(piece, 0x7fff_ffff) {
            Some(n) => Some(n as int),
            None => None,
        }
    }
}

/// The numbers that a text writes from index `i` on, `current` being the bytes of
/// the piece that index `i` stands in; `None` if a piece from there on is no number.
pub open spec fn numbers_from(text: Seq<u8>, i: int, current: Seq<u8>) -> Option<Seq<int>>
    decreases text.len() - i,
{
    if i >= text.len() {
        match whole_number(current) {
            Some(n) => Some(seq![n]),
            None => None,
        }
    } else if text[i] == 0x2c {
        match (whole_number(current), numbers_from(text, i + 1, Seq::empty())) {
            (Some(n), Some(rest)) => Some(seq![n] + rest),
            _ => None,
        }
    } else if is_passed_over(text[i]) {
        numbers_from(text, i + 1, current)
    } else {
        numbers_from(text, i + 1, current.push(text[i]))
    }
}

/// The numbers that a text writes: square brackets and white space are passed over,
/// what stands between the commas are the numbers.
pub open spec fn numbers(text: Seq<u8>) -> Option<Seq<int>> {
    numbers_from(text, 0, Seq::empty())
}

/// The whole number that a piece writes, if it writes one.
pub fn parse_whole_number(piece: &[u8]) -> (value: Option<i32>)
    ensures
        value is Some <==> whole_number(piece@) is Some,
        value matches Some(v) ==> whole_number(piece@) == Some(v as int),
{
    let n: usize = piece.len();
    if n > 0 && piece[0] == 0x2d {
        let rest: &[u8] = vstd::slice::slice_subrange(piece, 1, n);
        assert(rest@ =~= piece@.skip(1));
        match parse_natural(rest, 0x8000_0000) {
            Some(v) => Some((0 - v as i64) as i32),
            None => None,
        }
    } else if n > 0 && piece[0] == 0x2b {
        let rest: &[u8] = vstd::slice::slice_subrange(piece, 1, n);
        assert(rest@ =~= piece@.skip(1));
        match parse_natural(rest, 0x7fff_ffff) {
            Some(v) => Some(v as i32),
            None => None,
        }
    } else {
        match parse_natural(piece, 0x7fff_ffff) {
            Some(v) => Some(v as i32),
            None => None,
        }
    }
}

/// Whether the values are the numbers, one for one.
pub open spec fn same_numbers(values: Seq<i32>, wanted: Seq<int>) -> bool {
    values.len() == wanted.len() && forall|i: int| 0 <= i < values.len() ==> values[i] == wanted[i]
}

/// Reads the choices for a hyper-parameter, as in `[100, 500, 1000]`. `None` where
/// what stands between two commas is no whole number.
pub fn convert_string_to_vec_i32(s: &[u8]) -> (choices: Option<Vec<i32>>)
    ensures
        choices is Some <==> numbers(s@) is Some,
        choices matches Some(values) ==> same_numbers(values@, numbers(s@)->Some_0),
{
    let n: usize = s.len();
    let mut values: Vec<i32> = Vec::new();
    let mut piece: Vec<u8> = Vec::new();
    let mut i: usize = 0;
    while i < n
        invariant
            0 <= i <= n,
            n == s@.len(),
            numbers(s@) is Some <==> numbers_from(s@, i as int, piece@) is Some,
            numbers(s@) matches Some(all) ==> {
                &&& all.len() == values@.len() + numbers_from(s@, i as int, piece@)->Some_0.len()
                &&& forall|j: int| 0 <= j < values@.len() ==> values@[j] == all[j]
                &&& forall|j: int|
                    values@.len() <= j < all.len() ==> all[j] == numbers_from(
                        s@,
                        i as int,
                        piece@,
                    )->Some_0[j - values@.len()]
            },
        decreases n - i,
    {
        let b: u8 = s[i];
        if b == 0x2c {
            match parse_whole_number(piece.as_slice()) {
                Some(v) => {
                    values.push(v);
                    piece = Vec::new();
                },
                None => {
                    return None;
                },
            }
        } else if !(b == 0x5b || b == 0x5d || b == 0x20 || (0x09 <= b && b <= 0x0d)) {
            piece.push(b);
        }
        i = i + 1;
    }
    match parse_whole_number(piece.as_slice()) {
        Some(v) => {
            values.push(v);
            Some(values)
        },
        None => None,
    }
}

} // verus!
