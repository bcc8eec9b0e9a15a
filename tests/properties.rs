use bencode::value::compare_keys;
use bencode::{decode, decode_bytestr, decode_int, BencodeValue, DecodeError};

#[test]
fn zero_decodes_in_three_bytes() {
    assert_eq!(decode_int(b"i0e", 0), Ok((0, 3)));
    assert_eq!(decode(b"i0e"), Ok(vec![BencodeValue::Int(0)]));
}

#[test]
fn leading_zero_is_rejected() {
    assert_eq!(decode(b"i042e"), Err(DecodeError::LeadingZero(2)));
    assert_eq!(decode_int(b"i-05e", 0), Err(DecodeError::LeadingZero(3)));
    assert_eq!(decode_bytestr(b"03:abc", 0), Err(DecodeError::LeadingZero(1)));
}

#[test]
fn second_sign_or_start_is_rejected_at_its_offset() {
    assert_eq!(decode(b"i--5e"), Err(DecodeError::InvalidToken(2, '-')));
    assert_eq!(decode(b"ii5e"), Err(DecodeError::DuplicateStartToken(1)));
}

#[test]
fn sign_after_digits_is_rejected() {
    assert_eq!(decode_int(b"i5-e", 0), Err(DecodeError::InvalidToken(2, '-')));
}

#[test]
fn sign_without_digits_is_empty() {
    assert_eq!(decode_int(b"i-e", 0), Err(DecodeError::Empty(2)));
}

#[test]
fn byte_strings_report_their_extent() {
    assert_eq!(decode_bytestr(b"3:hey", 0), Ok((b"hey".to_vec(), 5)));
    assert_eq!(decode_bytestr(b"0:", 0), Ok((vec![], 2)));
    assert_eq!(decode(b"3:hey"), Ok(vec![BencodeValue::ByteStr(b"hey".to_vec())]));
    assert_eq!(decode(b"0:"), Ok(vec![BencodeValue::ByteStr(vec![])]));
}

#[test]
fn decoders_start_at_the_given_offset() {
    assert_eq!(decode_int(b"xxi-7e", 2), Ok((-7, 4)));
    assert_eq!(decode_bytestr(b"xx2:ab", 2), Ok((b"ab".to_vec(), 4)));
}

#[test]
fn truncated_payload() {
    assert_eq!(decode(b"5:ab"), Err(DecodeError::ByteStrEOF(2)));
    assert_eq!(decode_bytestr(b"99999999999999999999999:ab", 0), Err(DecodeError::ByteStrEOF(24)));
}

#[test]
fn missing_length_or_colon() {
    assert_eq!(decode_bytestr(b"3", 0), Err(DecodeError::InvalidLength(1)));
    assert_eq!(decode_bytestr(b":ab", 0), Err(DecodeError::InvalidLength(0)));
    assert_eq!(decode_bytestr(b"", 0), Err(DecodeError::InvalidLength(0)));
    assert_eq!(decode_bytestr(b"3xab", 0), Err(DecodeError::InvalidToken(1, 'x')));
}

#[test]
fn integer_needs_its_start_sigil() {
    assert_eq!(decode_int(b"42e", 0), Err(DecodeError::NoStartToken(0)));
    assert_eq!(decode_int(b"", 0), Err(DecodeError::NoStartToken(0)));
}

#[test]
fn unterminated_dictionary() {
    assert_eq!(decode(b"d3:heyi69e"), Err(DecodeError::NoEndToken(10)));
    assert_eq!(decode(b"l"), Err(DecodeError::NoEndToken(1)));
}

#[test]
fn stray_end_at_top_level() {
    assert_eq!(decode(b"e"), Err(DecodeError::InvalidEndToken(0)));
    assert_eq!(decode(b"lei1ee"), Err(DecodeError::InvalidEndToken(5)));
}

#[test]
fn malformed_dictionaries() {
    assert_eq!(decode(b"d1:ae"), Err(DecodeError::InvalidDict(4)));
    assert_eq!(decode(b"di1ei2ee"), Err(DecodeError::InvalidDict(7)));
}

#[test]
fn unknown_byte_at_top_level() {
    assert_eq!(decode(b"i1ex"), Err(DecodeError::InvalidToken(3, 'x')));
}

#[test]
fn integer_range_edges() {
    assert_eq!(decode_int(b"i9223372036854775807e", 0), Ok((i64::MAX, 21)));
    assert_eq!(decode_int(b"i-9223372036854775808e", 0), Ok((i64::MIN, 22)));
    assert_eq!(decode_int(b"i9223372036854775808e", 0), Err(DecodeError::IntOverflow(19)));
    assert_eq!(decode_int(b"i-9223372036854775809e", 0), Err(DecodeError::IntOverflow(20)));
}

#[test]
fn canonical_integers_round_trip() {
    for n in [0i64, 7, -7, 10, -10, 420, 1234567890, i64::MAX, i64::MIN] {
        let text = format!("i{}e", n);
        assert_eq!(decode_int(text.as_bytes(), 0), Ok((n, text.len())));
        assert_eq!(decode(text.as_bytes()), Ok(vec![BencodeValue::Int(n)]));
    }
}

#[test]
fn decoding_twice_gives_equal_results() {
    let inputs: [&[u8]; 3] = [b"d4:spaml1:a1:bee", b"i--1e", b"li1e3:abcd1:xi2eee"];
    for buf in inputs {
        assert_eq!(decode(buf), decode(buf));
    }
}

#[test]
fn arbitrary_bytes_never_panic() {
    let inputs: [&[u8]; 10] = [
        b"", b"\xff\x00", b"llllllll", b"d", b"i", b"-", b"999999999999999999999999999",
        b"1:", b"ddee", b"lli1eeee",
    ];
    for buf in inputs {
        let _ = decode(buf);
    }
    assert_eq!(decode(b""), Ok(vec![]));
    assert_eq!(decode(b"ddee"), Err(DecodeError::InvalidDict(3)));
}

#[test]
fn dictionary_keys_come_out_sorted_and_last_value_wins() {
    let got = decode(b"d1:bi1e1:ai2e1:bi3ee").unwrap();
    assert_eq!(
        got,
        vec![BencodeValue::Dict(vec![
            (b"a".to_vec(), BencodeValue::Int(2)),
            (b"b".to_vec(), BencodeValue::Int(3)),
        ])]
    );
}

#[test]
fn dict_from_sorts_and_keeps_last_value() {
    let d = BencodeValue::dict_from(vec![
        (b"zz".to_vec(), BencodeValue::Int(1)),
        (b"a".to_vec(), BencodeValue::Int(2)),
        (b"zz".to_vec(), BencodeValue::Int(3)),
        (b"ab".to_vec(), BencodeValue::Int(4)),
    ]);
    assert_eq!(
        d,
        BencodeValue::Dict(vec![
            (b"a".to_vec(), BencodeValue::Int(2)),
            (b"ab".to_vec(), BencodeValue::Int(4)),
            (b"zz".to_vec(), BencodeValue::Int(3)),
        ])
    );
}

#[test]
fn key_order_is_bytewise() {
    assert!(compare_keys(b"a", b"b") < 0);
    assert!(compare_keys(b"b", b"a") > 0);
    assert_eq!(compare_keys(b"ab", b"ab"), 0);
    assert!(compare_keys(b"a", b"ab") < 0);
    assert!(compare_keys(b"", b"a") < 0);
    assert!(compare_keys(b"\xff", b"a") > 0);
}
