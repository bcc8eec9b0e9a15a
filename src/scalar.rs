use vstd::prelude::*;
use crate::error::DecodeError;

verus! {

/// `i`, which opens an integer.
pub const INT_START: u8 = 105;
/// `e`, which closes an integer, a list or a dictionary.
pub const END: u8 = 101;
/// `l`, which opens a list.
pub const LIST_START: u8 = 108;
/// `d`, which opens a dictionary.
pub const DICT_START: u8 = 100;
/// `-`, the sign of a negative integer.
pub const MINUS: u8 = 45;
/// `:`, which ends the length of a byte string.
pub const COLON: u8 = 58;
/// `0`.
pub const DIGIT_ZERO: u8 = 48;
/// `9`.
pub const DIGIT_NINE: u8 = 57;

pub open spec fn is_digit(c: u8) -> bool {
    DIGIT_ZERO <= c <= DIGIT_NINE
}

pub open spec fn digit_value(c: u8) -> int {
    c - DIGIT_ZERO
}

/// Scans the rest of an integer from `pos`, given whether a `-` was seen,
/// how many digits were seen, and the signed value of those digits.
/// On success the result is the value and the bytes used from `start`.
pub open spec fn int_scan(
    buf: Seq<u8>,
    start: int,
    pos: int,
    neg: bool,
    digits: nat,
    val: int,
) -> Result<(int, nat), DecodeError>
    decreases buf.len() - pos,
{
    if pos < 0 || pos >= buf.len() {
        Err(DecodeError::NoEndToken(pos as usize))
    } else {
        let c = buf[pos];
        if c == INT_START {
            Err(DecodeError::DuplicateStartToken(pos as usize))
        } else if c == MINUS {
            if neg || digits > 0 {
                Err(DecodeError::InvalidToken(pos as usize, '-'))
            } else {
                int_scan(buf, start, pos + 1, true, digits, val)
            }
        } else if is_digit(c) {
            if digits == 1 && val == 0 {
                Err(DecodeError::LeadingZero(pos as usize))
            } else {
                let next = if neg {
                    val * 10 - digit_value(c)
                } else {
                    val * 10 + digit_value(c)
                };
                if next < i64::MIN || next > i64::MAX {
                    Err(DecodeError::IntOverflow(pos as usize))
                } else {
                    int_scan(buf, start, pos + 1, neg, digits + 1, next)
                }
            }
        } else if c == END {
            if digits == 0 {
                Err(DecodeError::Empty(pos as usize))
            } else {
                Ok((val, (pos + 1 - start) as nat))
            }
        } else {
            Err(DecodeError::InvalidToken(pos as usize, c as char))
        }
    }
}

/// What decoding an integer `i<digits>e` that starts at `start` yields.
pub open spec fn int_spec(buf: Seq<u8>, start: int) -> Result<(int, nat), DecodeError> {
    if start < 0 || start >= buf.len() || buf[start] != INT_START {
        Err(DecodeError::NoStartToken(start as usize))
    } else {
        int_scan(buf, start, start + 1, false, 0, 0)
    }
}

/// Scans the rest of a byte string from `pos` inside its length prefix,
/// given how many length digits were seen and the length they spell.
/// On success the result is the payload and the bytes used from `start`.
pub open spec fn bytestr_scan(buf: Seq<u8>, start: int, pos: int, digits: nat, len: nat) -> Result<
    (Seq<u8>, nat),
    DecodeError,
>
    decreases buf.len() - pos,
{
    if pos < 0 || pos >= buf.len() {
        Err(DecodeError::InvalidLength(pos as usize))
    } else {
        let c = buf[pos];
        if is_digit(c) {
            if digits == 1 && len == 0 {
                Err(DecodeError::LeadingZero(pos as usize))
            } else {
                bytestr_scan(buf, start, pos + 1, digits + 1, (len * 10 + digit_value(c)) as nat)
            }
        } else if c == COLON {
            if digits == 0 {
                Err(DecodeError::InvalidLength(pos as usize))
            } else if pos + 1 + len > buf.len() {
                Err(DecodeError::ByteStrEOF((pos + 1) as usize))
            } else {
                Ok((buf.subrange(pos + 1, pos + 1 + len), (pos + 1 + len - start) as nat))
            }
        } else {
            Err(DecodeError::InvalidToken(pos as usize, c as char))
        }
    }
}

/// What decoding a byte string `<len>:<bytes>` that starts at `start` yields.
pub open spec fn bytestr_spec(buf: Seq<u8>, start: int) -> Result<(Seq<u8>, nat), DecodeError> {
    bytestr_scan(buf, start, start, 0, 0)
}

/// Decodes the integer `i<digits>e` at `start_pos`, returning its value and
/// the number of bytes it takes up.
pub fn decode_int(enc_str: &[u8], start_pos: usize) -> (r: Result<(i64, usize), DecodeError>)
    ensures
        match r {
            Ok((v, n)) => int_spec(enc_str@, start_pos as int) == Ok::<(int, nat), DecodeError>(
                (v as int, n as nat),
            ),
            Err(e) => int_spec(enc_str@, start_pos as int) == Err::<(int, nat), DecodeError>(e),
        },
{
    if start_pos >= enc_str.len() || enc_str[start_pos] != INT_START {
        return Err(DecodeError::NoStartToken(start_pos));
    }
    let mut pos: usize = start_pos + 1;
    let mut neg = false;
    let mut digits: usize = 0;
    let mut value: i64 = 0;
    while pos < enc_str.len()
        invariant
            start_pos < pos <= enc_str.len(),
            digits <= pos - start_pos,
            int_scan(enc_str@, start_pos as int, pos as int, neg, digits as nat, value as int)
                == int_spec(enc_str@, start_pos as int),
        decreases enc_str.len() - pos,
    {
        let c = enc_str[pos];
        if c == INT_START {
            return Err(DecodeError::DuplicateStartToken(pos));
        } else if c == MINUS {
            if neg || digits > 0 {
                return Err(DecodeError::InvalidToken(pos, '-'));
            }
            neg = true;
        } else if DIGIT_ZERO <= c && c <= DIGIT_NINE {
            if digits == 1 && value == 0 {
                return Err(DecodeError::LeadingZero(pos));
            }
            let d = (c - DIGIT_ZERO) as i128;
            let wide: i128 = if neg {
                (value as i128) * 10 - d
            } else {
                (value as i128) * 10 + d
            };
            if wide < i64::MIN as i128 || wide > i64::MAX as i128 {
                return Err(DecodeError::IntOverflow(pos));
            }
            value = wide as i64;
            digits = digits + 1;
        } else if c == END {
            if digits == 0 {
                return Err(DecodeError::Empty(pos));
            }
            return Ok((value, pos + 1 - start_pos));
        } else {
            return Err(DecodeError::InvalidToken(pos, c as char));
        }
        pos = pos + 1;
    }
    Err(DecodeError::NoEndToken(pos))
}

/// Decodes the byte string `<len>:<bytes>` whose length starts at
/// `start_pos`, returning its payload and the number of bytes it takes up.
pub fn decode_bytestr(enc_str: &[u8], start_pos: usize) -> (r: Result<(Vec<u8>, usize), DecodeError>)
    ensures
        match r {
            Ok((b, n)) => bytestr_spec(enc_str@, start_pos as int) == Ok::<
                (Seq<u8>, nat),
                DecodeError,
            >((b@, n as nat)),
            Err(e) => bytestr_spec(enc_str@, start_pos as int) == Err::<(Seq<u8>, nat), DecodeError>(
                e,
            ),
        },
{
    let len = enc_str.len();
    if start_pos >= len {
        return Err(DecodeError::InvalidLength(start_pos));
    }
    let mut pos: usize = start_pos;
    let mut digits: usize = 0;
    // `size` is the declared length while it fits the buffer; past that,
    // `too_long` is set and the exact value no longer matters.
    let mut size: usize = 0;
    let mut too_long = false;
    let ghost mut declared: nat = 0;
    while pos < len
        invariant
            len == enc_str.len(),
            start_pos <= pos <= len,
            digits <= pos - start_pos,
            size <= len,
            !too_long ==> size == declared,
            too_long ==> declared > len,
            bytestr_scan(enc_str@, start_pos as int, pos as int, digits as nat, declared)
                == bytestr_spec(enc_str@, start_pos as int),
        decreases len - pos,
    {
        let c = enc_str[pos];
        if DIGIT_ZERO <= c && c <= DIGIT_NINE {
            if digits == 1 && !too_long && size == 0 {
                return Err(DecodeError::LeadingZero(pos));
            }
            let d = (c - DIGIT_ZERO) as usize;
            proof {
                declared = (declared * 10 + d) as nat;
            }
            if !too_long && size <= len / 10 && d <= len - size * 10 {
                size = size * 10 + d;
            } else {
                proof {
                    if !too_long && size > len / 10 {
                        assert(size * 10 > len) by (nonlinear_arith)
                            requires
                                size > len / 10,
                        ;
                    }
                }
                too_long = true;
            }
            digits = digits + 1;
            pos = pos + 1;
        } else if c == COLON {
            if digits == 0 {
                return Err(DecodeError::InvalidLength(pos));
            }
            let body = pos + 1;
            if too_long || size > len - body {
                return Err(DecodeError::ByteStrEOF(body));
            }
            let mut out: Vec<u8> = Vec::new();
            let mut i: usize = body;
            while i < body + size
                invariant
                    body <= i <= body + size <= len,
                    len == enc_str.len(),
                    out@ == enc_str@.subrange(body as int, i as int),
                decreases body + size - i,
            {
                out.push(enc_str[i]);
                assert(out@ =~= enc_str@.subrange(body as int, i + 1));
                i = i + 1;
            }
            return Ok((out, body + size - start_pos));
        } else {
            return Err(DecodeError::InvalidToken(pos, c as char));
        }
    }
    Err(DecodeError::InvalidLength(pos))
}

} // verus!
