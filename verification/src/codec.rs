//! Coordinate codec: single grid-axis labels `a..=z` map to offsets `0..=25`,
//! `A..=Z` to `26..=51`; a two-character string names an `(x, y)` point.

use vstd::prelude::*;
use vstd::string::StrSliceExecFns;
use crate::model::GoError;

verus! {

/// A character is a supported single-axis coordinate label.
pub open spec fn is_coord_char(c: char) -> bool {
    (97 <= c as int && c as int <= 122) || (65 <= c as int && c as int <= 90)
}

/// The offset a coordinate character encodes: `a..=z` give `0..=25`,
/// `A..=Z` give `26..=51`. Meaningful only when `is_coord_char(c)`.
pub open spec fn encode_spec(c: char) -> int {
    if 97 <= c as int && c as int <= 122 {
        c as int - 97
    } else {
        c as int - 65 + 26
    }
}

/// The coordinate character for an offset in `0..=51`; the inverse of
/// `encode_spec`.
pub open spec fn decode_spec(i: int) -> char {
    if i < 26 {
        (i + 97) as char
    } else {
        (i - 26 + 65) as char
    }
}

/// Round trip: decoding an encoded coordinate character gives the character
/// back, for every supported character.
pub proof fn lemma_codec_round_trip(c: char)
    requires
        is_coord_char(c),
    ensures
        0 <= encode_spec(c) < 52,
        decode_spec(encode_spec(c)) == c,
{
}

/// Maps a coordinate character to its zero-based offset; any character
/// outside the supported alphabet is rejected.
pub fn char2int(c: char) -> (r: Result<usize, GoError>)
    ensures
        is_coord_char(c) ==> r == Ok::<usize, GoError>(encode_spec(c) as usize),
        !is_coord_char(c) ==> r == Err::<usize, GoError>(GoError::InvalidCoordinate),
{
    let u = c as u32;
    if 97 <= u && u <= 122 {
        Ok((u - 97) as usize)
    } else if 65 <= u && u <= 90 {
        Ok((u - 65 + 26) as usize)
    } else {
        Err(GoError::InvalidCoordinate)
    }
}

/// Maps a zero-based offset back to its coordinate character; offsets of 52
/// or more are rejected.
pub fn int2char(i: usize) -> (r: Result<char, GoError>)
    ensures
        i < 52 ==> r == Ok::<char, GoError>(decode_spec(i as int)),
        i >= 52 ==> r == Err::<char, GoError>(GoError::InvalidCoordinate),
{
    if i < 26 {
        Ok((97 + i as u8) as char)
    } else if i < 52 {
        Ok((65 + (i - 26) as u8) as char)
    } else {
        Err(GoError::InvalidCoordinate)
    }
}

/// What decoding a two-character coordinate string yields: the `(x, y)`
/// point, or the error mandated for short or unsupported input.
pub open spec fn decode_point_spec(s: Seq<char>) -> Result<(usize, usize), GoError> {
    if s.len() < 2 {
        Err(GoError::MalformedCoordinate)
    } else if !is_coord_char(s[0]) {
        Err(GoError::InvalidCoordinate)
    } else if !is_coord_char(s[1]) {
        Err(GoError::InvalidCoordinate)
    } else {
        Ok((encode_spec(s[0]) as usize, encode_spec(s[1]) as usize))
    }
}

/// Decodes the first two characters of a coordinate string to an `(x, y)`
/// point; fails with `MalformedCoordinate` on fewer than two characters and
/// with `InvalidCoordinate` on a character outside the alphabet.
pub fn str_to_position(s: &str) -> (r: Result<(usize, usize), GoError>)
    ensures
        r == decode_point_spec(s@),
{
    let n = s.unicode_len();
    if n < 2 {
        return Err(GoError::MalformedCoordinate);
    }
    let c0 = s.get_char(0);
    let c1 = s.get_char(1);
    let x = match char2int(c0) {
        Ok(v) => v,
        Err(e) => {
            return Err(e);
        },
    };
    let y = match char2int(c1) {
        Ok(v) => v,
        Err(e) => {
            return Err(e);
        },
    };
    Ok((x, y))
}

} // verus!
