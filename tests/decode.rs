use bencode::{decode, decode_bytestr, decode_int, BencodeValue, DecodeError};

fn bytes(s: &str) -> Vec<u8> {
    s.as_bytes().to_vec()
}

#[test]
fn test_dict_ok() {
    let str = "d3:heyi69ee";
    let ret = decode(str.as_bytes()).unwrap();

    assert_eq!(
        ret,
        vec![BencodeValue::dict_from(vec![(b"hey".to_vec(), BencodeValue::Int(69))])]
    )
}

#[test]
fn test_dict_nested() {
    let str = "d3:heyd3:food3:bari420eeee";
    let ret = decode(str.as_bytes()).unwrap();

    assert_eq!(
        ret,
        vec![BencodeValue::dict_from(vec![(
            b"hey".to_vec(),
            BencodeValue::dict_from(vec![(
                b"foo".to_vec(),
                BencodeValue::dict_from(vec![(b"bar".to_vec(), BencodeValue::Int(420))])
            )])
        )])]
    )
}

#[test]
fn test_complex_nested() {
    let str = "d4:userld4:name4:John3:agei30e6:scoresli100eli95ei88eeeee4:metad5:admin0:1:11:y6:active1:1ee";
    let ret = decode(str.as_bytes()).unwrap();

    assert_eq!(
        ret,
        vec![BencodeValue::dict_from(vec![
            (
                b"user".to_vec(),
                BencodeValue::List(vec![BencodeValue::dict_from(vec![
                    (b"name".to_vec(), BencodeValue::ByteStr(b"John".to_vec())),
                    (b"age".to_vec(), BencodeValue::Int(30)),
                    (
                        b"scores".to_vec(),
                        BencodeValue::List(vec![
                            BencodeValue::Int(100),
                            BencodeValue::List(vec![BencodeValue::Int(95), BencodeValue::Int(88)]),
                        ])
                    ),
                ])])
            ),
            (
                b"meta".to_vec(),
                BencodeValue::dict_from(vec![
                    (b"admin".to_vec(), BencodeValue::ByteStr(b"".to_vec())),
                    (b"1".to_vec(), BencodeValue::ByteStr(b"y".to_vec())),
                    (b"active".to_vec(), BencodeValue::ByteStr(b"1".to_vec())),
                ])
            ),
        ])]
    );
}

#[test]
fn test_list_ok() {
    let str = "li420ei69ee";
    let ret = decode(str.as_bytes()).unwrap();

    assert_eq!(
        ret,
        vec![BencodeValue::List(vec![BencodeValue::Int(420), BencodeValue::Int(69)])]
    )
}

#[test]
fn test_list_empty() {
    let str = "le";
    let ret = decode(str.as_bytes()).unwrap();

    assert_eq!(ret, vec![BencodeValue::List(vec![])])
}

#[test]
fn test_list_nested() {
    let str = "llli420eeee";
    let ret = decode(str.as_bytes()).unwrap();

    assert_eq!(
        ret,
        vec![BencodeValue::List(vec![BencodeValue::List(vec![BencodeValue::List(vec![
            BencodeValue::Int(420)
        ])])])]
    )
}

#[test]
fn test_list_complex() {
    let str = "lli420el3:heyeel5:Helloee";
    let ret = decode(str.as_bytes()).unwrap();

    assert_eq!(
        ret,
        vec![BencodeValue::List(vec![
            BencodeValue::List(vec![
                BencodeValue::Int(420),
                BencodeValue::List(vec![BencodeValue::ByteStr("hey".as_bytes().to_vec())])
            ]),
            BencodeValue::List(vec![BencodeValue::ByteStr("Hello".as_bytes().to_vec())])
        ])]
    )
}

#[test]
fn test_int_ok() {
    let str = "i1234567890e";
    let (item, pos) = decode_int(&str.as_bytes(), 0).unwrap();

    assert_eq!(pos, 12);
    assert_eq!(item, 1234567890);
}

#[test]
fn test_int_neg() {
    let str = "i-125e";
    let (item, pos) = decode_int(&str.as_bytes(), 0).unwrap();

    assert_eq!(pos, 6);
    assert_eq!(item, -125);
}

#[test]
fn test_int_double_neg() {
    let str = "i--69e";
    let result = decode_int(&str.as_bytes(), 0);

    assert_eq!(result.err(), Some(DecodeError::InvalidToken(2, '-')))
}

#[test]
fn test_int_empty() {
    let str = "ie";
    let result = decode_int(&str.as_bytes(), 0);

    assert_eq!(result.err(), Some(DecodeError::Empty(1)));
}

#[test]
fn test_int_invalid() {
    let str = "iBe";
    let result = decode_int(&str.as_bytes(), 0);

    assert_eq!(result.err(), Some(DecodeError::InvalidToken(1, 'B')));
}

#[test]
fn test_int_noend() {
    let str = "i420";
    let result = decode_int(&str.as_bytes(), 0);

    assert_eq!(result.err(), Some(DecodeError::NoEndToken(4)));
}

#[test]
fn test_int_duplicate_start() {
    let str = "ii420";
    let result = decode_int(&str.as_bytes(), 0);

    assert_eq!(result.err(), Some(DecodeError::DuplicateStartToken(1)));
}

#[test]
fn test_bstr_ok() {
    let str = "3:hey";
    let (item, pos) = decode_bytestr(str.as_bytes(), 0).unwrap();

    assert_eq!(pos, 5);
    assert_eq!(item, b"hey");
}

#[test]
fn test_bstr_long() {
    let str = "44:The quick brown fox jumped over the lazy dog";
    let (item, pos) = decode_bytestr(str.as_bytes(), 0).unwrap();

    assert_eq!(pos, 47);
    assert_eq!(item, b"The quick brown fox jumped over the lazy dog");
}

#[test]
fn test_bstr_bytes() {
    let str = &[b'4', b':', 0xAA, 0xBB, 0xCC, 0xDD];
    let (item, pos) = decode_bytestr(str, 0).unwrap();

    assert_eq!(pos, 6);
    assert_eq!(item, &[0xAA, 0xBB, 0xCC, 0xDD]);
}

#[test]
fn test_bstr_empty() {
    let str = "0:";
    let (item, pos) = decode_bytestr(str.as_bytes(), 0).unwrap();

    assert_eq!(pos, 2);
    assert_eq!(item, b"");
}

#[test]
fn test_bstr_backtoback() {
    let str = "5:admin0:3:hey10:abcdefghij";
    let result = decode(str.as_bytes()).unwrap();

    assert_eq!(
        result,
        vec![
            BencodeValue::ByteStr("admin".as_bytes().to_vec()),
            BencodeValue::ByteStr("".as_bytes().to_vec()),
            BencodeValue::ByteStr("hey".as_bytes().to_vec()),
            BencodeValue::ByteStr("abcdefghij".as_bytes().to_vec()),
        ]
    );
}
