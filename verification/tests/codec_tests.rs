use sgf_reader::codec::{char2int, int2char, str_to_position};
use sgf_reader::model::GoError;

#[test]
fn encode_lower_bounds() {
    assert_eq!(char2int('a'), Ok(0));
    assert_eq!(char2int('z'), Ok(25));
}

#[test]
fn encode_upper_bounds() {
    assert_eq!(char2int('A'), Ok(26));
    assert_eq!(char2int('Z'), Ok(51));
}

#[test]
fn encode_rejects_unsupported_characters() {
    assert_eq!(char2int('0'), Err(GoError::InvalidCoordinate));
    assert_eq!(char2int('!'), Err(GoError::InvalidCoordinate));
    assert_eq!(char2int(' '), Err(GoError::InvalidCoordinate));
    assert_eq!(char2int('\u{e9}'), Err(GoError::InvalidCoordinate));
}

#[test]
fn decode_rejects_out_of_range() {
    assert_eq!(int2char(52), Err(GoError::InvalidCoordinate));
    assert_eq!(int2char(usize::MAX), Err(GoError::InvalidCoordinate));
}

#[test]
fn round_trip_every_supported_character() {
    for c in ('a'..='z').chain('A'..='Z') {
        let i = char2int(c).expect("supported character must encode");
        assert!(i < 52);
        assert_eq!(int2char(i), Ok(c));
    }
}

#[test]
fn str_to_position_decodes_two_characters() {
    assert_eq!(str_to_position("ee"), Ok((4, 4)));
    assert_eq!(str_to_position("aa"), Ok((0, 0)));
    assert_eq!(str_to_position("za"), Ok((25, 0)));
    assert_eq!(str_to_position("aZ"), Ok((0, 51)));
}

#[test]
fn str_to_position_ignores_trailing_characters() {
    assert_eq!(str_to_position("abc"), Ok((0, 1)));
}

#[test]
fn str_to_position_rejects_short_strings() {
    assert_eq!(str_to_position(""), Err(GoError::MalformedCoordinate));
    assert_eq!(str_to_position("e"), Err(GoError::MalformedCoordinate));
}

#[test]
fn str_to_position_rejects_bad_characters() {
    assert_eq!(str_to_position("!a"), Err(GoError::InvalidCoordinate));
    assert_eq!(str_to_position("a!"), Err(GoError::InvalidCoordinate));
    assert_eq!(str_to_position("\u{e9}a"), Err(GoError::InvalidCoordinate));
}
