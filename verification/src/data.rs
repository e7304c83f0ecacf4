//! Payload decoding of the corrected data codewords: the bitstream is a
//! sequence of segments, each a four-bit mode indicator, a length field
//! whose width depends on the mode and the version range, and the encoded
//! text. Numeric, alphanumeric, byte and FNC1 segments are decoded; ECI
//! designators up to 3 keep the default Latin interpretation. A kanji
//! segment or a higher ECI designator selects a character set this
//! decoder does not render (a Shift-JIS or Unicode mapping lies outside
//! its scope), and is refused with an error rather than misread; an
//! unknown indicator is malformed.

use vstd::prelude::*;
use vstd::string::*;

use crate::blocks::pow2s;
use crate::qr::QRError;

verus! {

/// Bit `i` of a byte stream, most significant bit of each byte first.
pub open spec fn bit_at(bytes: Seq<u8>, i: int) -> u8 {
    (bytes[i / 8] >> (7 - (i % 8)) as u8) & 1
}

/// The value of the `n` bits starting at `pos`, most significant first.
pub open spec fn read_bits_spec(bytes: Seq<u8>, pos: int, n: int) -> int
    decreases n,
{
    if n <= 0 {
        0
    } else {
        2 * read_bits_spec(bytes, pos, n - 1) + bit_at(bytes, pos + n - 1)
    }
}

/// The width of the character count field for a mode (by its indicator)
/// and a version, per the standard table of version ranges.
pub open spec fn count_width(mode: int, version: int) -> int {
    if mode == 1 {
        if version <= 9 {
            10
        } else if version <= 26 {
            12
        } else {
            14
        }
    } else if mode == 2 {
        if version <= 9 {
            9
        } else if version <= 26 {
            11
        } else {
            13
        }
    } else {
        if version <= 9 {
            8
        } else {
            16
        }
    }
}

/// The character of one decimal digit.
pub open spec fn digit_char(d: int) -> char {
    if d == 0 {
        '0'
    } else if d == 1 {
        '1'
    } else if d == 2 {
        '2'
    } else if d == 3 {
        '3'
    } else if d == 4 {
        '4'
    } else if d == 5 {
        '5'
    } else if d == 6 {
        '6'
    } else if d == 7 {
        '7'
    } else if d == 8 {
        '8'
    } else {
        '9'
    }
}

/// The character at an index of the 45-character alphanumeric alphabet
/// `0-9A-Z $%*+-./:`.
pub open spec fn alnum_char(v: int) -> char {
    if v <= 9 {
        digit_char(v)
    } else if v == 10 {
        'A'
    } else if v == 11 {
        'B'
    } else if v == 12 {
        'C'
    } else if v == 13 {
        'D'
    } else if v == 14 {
        'E'
    } else if v == 15 {
        'F'
    } else if v == 16 {
        'G'
    } else if v == 17 {
        'H'
    } else if v == 18 {
        'I'
    } else if v == 19 {
        'J'
    } else if v == 20 {
        'K'
    } else if v == 21 {
        'L'
    } else if v == 22 {
        'M'
    } else if v == 23 {
        'N'
    } else if v == 24 {
        'O'
    } else if v == 25 {
        'P'
    } else if v == 26 {
        'Q'
    } else if v == 27 {
        'R'
    } else if v == 28 {
        'S'
    } else if v == 29 {
        'T'
    } else if v == 30 {
        'U'
    } else if v == 31 {
        'V'
    } else if v == 32 {
        'W'
    } else if v == 33 {
        'X'
    } else if v == 34 {
        'Y'
    } else if v == 35 {
        'Z'
    } else if v == 36 {
        ' '
    } else if v == 37 {
        '$'
    } else if v == 38 {
        '%'
    } else if v == 39 {
        '*'
    } else if v == 40 {
        '+'
    } else if v == 41 {
        '-'
    } else if v == 42 {
        '.'
    } else if v == 43 {
        '/'
    } else {
        ':'
    }
}

/// The text of a numeric segment of `n` digits starting at `pos` and the
/// bits it takes: digits come in threes of ten bits, a remainder of two
/// digits in seven bits or one digit in four. A group that runs past the
/// stream or exceeds its digit range is malformed.
pub open spec fn parse_numeric(bytes: Seq<u8>, pos: int, n: int) -> Option<(Seq<char>, nat)>
    decreases n,
{
    let bits = 8 * bytes.len() as int;
    if n <= 0 {
        Some((Seq::empty(), 0nat))
    } else if n >= 3 {
        if pos + 10 > bits {
            None
        } else {
            let v = read_bits_spec(bytes, pos, 10);
            if v > 999 {
                None
            } else {
                match parse_numeric(bytes, pos + 10, n - 3) {
                    Some((cs, used)) => Some(
                        (
                            seq![
                                digit_char(v / 100),
                                digit_char((v / 10) % 10),
                                digit_char(v % 10),
                            ] + cs,
                            (10 + used) as nat,
                        ),
                    ),
                    None => None,
                }
            }
        }
    } else if n == 2 {
        if pos + 7 > bits {
            None
        } else {
            let v = read_bits_spec(bytes, pos, 7);
            if v > 99 {
                None
            } else {
                Some((seq![digit_char(v / 10), digit_char(v % 10)], 7nat))
            }
        }
    } else {
        if pos + 4 > bits {
            None
        } else {
            let v = read_bits_spec(bytes, pos, 4);
            if v > 9 {
                None
            } else {
                Some((seq![digit_char(v)], 4nat))
            }
        }
    }
}

/// The text of an alphanumeric segment of `n` characters starting at
/// `pos` and the bits it takes: characters come in pairs of eleven bits,
/// a final single character in six. A group that runs past the stream or
/// exceeds the alphabet is malformed.
pub open spec fn parse_alnum(bytes: Seq<u8>, pos: int, n: int) -> Option<(Seq<char>, nat)>
    decreases n,
{
    let bits = 8 * bytes.len() as int;
    if n <= 0 {
        Some((Seq::empty(), 0nat))
    } else if n >= 2 {
        if pos + 11 > bits {
            None
        } else {
            let v = read_bits_spec(bytes, pos, 11);
            if v >= 45 * 45 {
                None
            } else {
                match parse_alnum(bytes, pos + 11, n - 2) {
                    Some((cs, used)) => Some(
                        (seq![alnum_char(v / 45), alnum_char(v % 45)] + cs, (11 + used) as nat),
                    ),
                    None => None,
                }
            }
        }
    } else {
        if pos + 6 > bits {
            None
        } else {
            let v = read_bits_spec(bytes, pos, 6);
            if v >= 45 {
                None
            } else {
                Some((seq![alnum_char(v)], 6nat))
            }
        }
    }
}

/// The text of a byte segment of `n` bytes starting at `pos` and the
/// bits it takes, each byte one Latin character; a segment that runs
/// past the stream is malformed.
pub open spec fn parse_byte_seg(bytes: Seq<u8>, pos: int, n: int) -> Option<(Seq<char>, nat)>
    decreases n,
{
    let bits = 8 * bytes.len() as int;
    if n <= 0 {
        Some((Seq::empty(), 0nat))
    } else if pos + 8 > bits {
        None
    } else {
        let v = read_bits_spec(bytes, pos, 8);
        match parse_byte_seg(bytes, pos + 8, n - 1) {
            Some((cs, used)) => Some((seq![(v as u8) as char] + cs, (8 + used) as nat)),
            None => None,
        }
    }
}

/// Every bit from `pos` to the end of the stream is zero.
pub open spec fn trailing_zero(bytes: Seq<u8>, pos: int) -> bool {
    forall|k: int| pos <= k < 8 * bytes.len() ==> bit_at(bytes, k) == 0
}

/// The decoded text of the segments from `pos` on. A terminator ends the
/// payload; a stream with fewer than four bits left ends it too, but
/// only over zero padding. FNC1 markers are skipped; an ECI designator
/// of at most 3 keeps the default Latin interpretation; any other
/// designator, a kanji segment, or an unknown mode is refused.
pub open spec fn parse_segments(bytes: Seq<u8>, version: int, pos: int) -> Option<Seq<char>>
    decreases 8 * bytes.len() - pos,
{
    let bits = 8 * bytes.len() as int;
    if pos < 0 || pos + 4 > bits {
        if pos < 0 || trailing_zero(bytes, pos) {
            Some(Seq::empty())
        } else {
            None
        }
    } else {
        let mode = read_bits_spec(bytes, pos, 4);
        if mode == 0 {
            Some(Seq::empty())
        } else if mode == 1 || mode == 2 || mode == 4 {
            let w = count_width(mode, version);
            if pos + 4 + w > bits {
                None
            } else {
                let n = read_bits_spec(bytes, pos + 4, w);
                let seg = if mode == 1 {
                    parse_numeric(bytes, pos + 4 + w, n)
                } else if mode == 2 {
                    parse_alnum(bytes, pos + 4 + w, n)
                } else {
                    parse_byte_seg(bytes, pos + 4 + w, n)
                };
                match seg {
                    Some((cs, used)) => {
                        let p2 = pos + 4 + w + used;
                        match parse_segments(
                            bytes,
                            version,
                            if p2 > bits {
                                bits
                            } else {
                                p2
                            },
                        ) {
                            Some(rest) => Some(cs + rest),
                            None => None,
                        }
                    },
                    None => None,
                }
            }
        } else if mode == 5 {
            // FNC1, first position: no content of its own
            parse_segments(bytes, version, pos + 4)
        } else if mode == 9 {
            // FNC1, second position: an eight-bit application indicator
            if pos + 12 > bits {
                None
            } else {
                parse_segments(bytes, version, pos + 12)
            }
        } else if mode == 7 {
            // ECI: designators up to 3 keep the Latin default
            if pos + 12 > bits {
                None
            } else {
                let d = read_bits_spec(bytes, pos + 4, 8);
                if d > 3 {
                    None
                } else {
                    parse_segments(bytes, version, pos + 12)
                }
            }
        } else {
            None
        }
    }
}

/// What a data codeword stream decodes to under a version.
pub open spec fn payload_spec(bytes: Seq<u8>, version: int) -> Option<Seq<char>> {
    parse_segments(bytes, version, 0)
}

proof fn lemma_read_bits_bound(bytes: Seq<u8>, pos: int, n: int)
    requires
        0 <= n,
    ensures
        0 <= read_bits_spec(bytes, pos, n) < pow2s(n as nat),
    decreases n,
{
    if n > 0 {
        lemma_read_bits_bound(bytes, pos, n - 1);
        let b = bytes[(pos + n - 1) / 8];
        let sh = (7 - ((pos + n - 1) % 8)) as u8;
        assert((b >> sh) & 1 <= 1) by (bit_vector);
    }
}

/// Relies on String::push: appends one character at the end of the
/// string.
#[verifier::external_body]
fn push_char(s: &mut String, c: char)
    ensures
        final(s)@ == old(s)@.push(c),
{
    s.push(c);
}

/// Reads the `n` bits starting at `pos`, most significant first.
fn read_bits(bytes: &Vec<u8>, pos: usize, n: usize) -> (r: u32)
    requires
        n <= 16,
        pos + n <= 8 * bytes@.len(),
        bytes@.len() < 100000,
    ensures
        r == read_bits_spec(bytes@, pos as int, n as int),
        r < pow2s(n as nat),
{
    proof {
        lemma_read_bits_bound(bytes@, pos as int, n as int);
        lemma_pow2s_le16(n as int);
    }
    let mut acc: u32 = 0;
    let mut i: usize = 0;
    while i < n
        invariant
            i <= n,
            n <= 16,
            pos + n <= 8 * bytes@.len(),
            bytes@.len() < 100000,
            acc == read_bits_spec(bytes@, pos as int, i as int),
            acc < pow2s(i as nat),
        decreases n - i,
    {
        proof {
            lemma_read_bits_bound(bytes@, pos as int, i as int + 1);
            lemma_pow2s_le16(i as int + 1);
        }
        let k = pos + i;
        let byte = bytes[k / 8];
        let bit = (byte >> (7 - (k % 8)) as u8) & 1;
        proof {
            assert((byte >> (7 - ((k as int) % 8)) as u8) & 1 <= 1) by (bit_vector);
            assert(k as int / 8 == (k / 8) as int);
        }
        acc = acc * 2 + bit as u32;
        i = i + 1;
    }
    acc
}

proof fn lemma_pow2s_le16(n: int)
    requires
        0 <= n <= 16,
    ensures
        pow2s(n as nat) <= 65536,
    decreases n,
{
    reveal_with_fuel(pow2s, 18);
}

/// Decodes a numeric segment of `n` digits at `pos` into `out`, giving
/// back the position after it.
fn numeric_exec(bytes: &Vec<u8>, pos: usize, n: usize, out: &mut String) -> (r: Result<
    usize,
    QRError,
>)
    requires
        bytes@.len() < 100000,
        pos <= 8 * bytes@.len(),
    ensures
        r is Ok <==> parse_numeric(bytes@, pos as int, n as int) is Some,
        r is Ok ==> ({
            let (cs, used) = parse_numeric(bytes@, pos as int, n as int)->0;
            &&& final(out)@ == old(out)@ + cs
            &&& r->Ok_0 == pos + used
            &&& r->Ok_0 <= 8 * bytes@.len()
        }),
    decreases n,
{
    if n == 0 {
        proof {
            assert(old(out)@ + Seq::<char>::empty() =~= old(out)@);
        }
        return Ok(pos);
    }
    if n >= 3 {
        if pos + 10 > 8 * bytes.len() {
            return Err(QRError { msg: String::from_str("numeric segment past end of data") });
        }
        let v = read_bits(bytes, pos, 10);
        if v > 999 {
            return Err(QRError { msg: String::from_str("numeric group out of range") });
        }
        let ghost out0 = out@;
        push_char(out, digit(v / 100));
        push_char(out, digit((v / 10) % 10));
        push_char(out, digit(v % 10));
        let ghost out1 = out@;
        let r = numeric_exec(bytes, pos + 10, n - 3, out);
        match r {
            Ok(p) => {
                proof {
                    let (cs, used) = parse_numeric(bytes@, pos as int + 10, n as int - 3)->0;
                    assert(out@ =~= out0 + (seq![
                        digit_char(v as int / 100),
                        digit_char((v as int / 10) % 10),
                        digit_char(v as int % 10),
                    ] + cs));
                }
                Ok(p)
            },
            Err(e) => Err(e),
        }
    } else if n == 2 {
        if pos + 7 > 8 * bytes.len() {
            return Err(QRError { msg: String::from_str("numeric segment past end of data") });
        }
        let v = read_bits(bytes, pos, 7);
        if v > 99 {
            return Err(QRError { msg: String::from_str("numeric group out of range") });
        }
        let ghost out0 = out@;
        push_char(out, digit(v / 10));
        push_char(out, digit(v % 10));
        proof {
            assert(out@ =~= out0 + seq![digit_char(v as int / 10), digit_char(v as int % 10)]);
        }
        Ok(pos + 7)
    } else {
        if pos + 4 > 8 * bytes.len() {
            return Err(QRError { msg: String::from_str("numeric segment past end of data") });
        }
        let v = read_bits(bytes, pos, 4);
        if v > 9 {
            return Err(QRError { msg: String::from_str("numeric group out of range") });
        }
        let ghost out0 = out@;
        push_char(out, digit(v));
        proof {
            assert(out@ =~= out0 + seq![digit_char(v as int)]);
        }
        Ok(pos + 4)
    }
}

/// The character of one decimal digit.
fn digit(d: u32) -> (r: char)
    requires
        d <= 9,
    ensures
        r == digit_char(d as int),
{
    if d == 0 {
        '0'
    } else if d == 1 {
        '1'
    } else if d == 2 {
        '2'
    } else if d == 3 {
        '3'
    } else if d == 4 {
        '4'
    } else if d == 5 {
        '5'
    } else if d == 6 {
        '6'
    } else if d == 7 {
        '7'
    } else if d == 8 {
        '8'
    } else {
        '9'
    }
}

/// The character at an index of the alphanumeric alphabet.
fn alnum(v: u32) -> (r: char)
    requires
        v < 45,
    ensures
        r == alnum_char(v as int),
{
    if v <= 9 {
        digit(v)
    } else if v == 10 {
        'A'
    } else if v == 11 {
        'B'
    } else if v == 12 {
        'C'
    } else if v == 13 {
        'D'
    } else if v == 14 {
        'E'
    } else if v == 15 {
        'F'
    } else if v == 16 {
        'G'
    } else if v == 17 {
        'H'
    } else if v == 18 {
        'I'
    } else if v == 19 {
        'J'
    } else if v == 20 {
        'K'
    } else if v == 21 {
        'L'
    } else if v == 22 {
        'M'
    } else if v == 23 {
        'N'
    } else if v == 24 {
        'O'
    } else if v == 25 {
        'P'
    } else if v == 26 {
        'Q'
    } else if v == 27 {
        'R'
    } else if v == 28 {
        'S'
    } else if v == 29 {
        'T'
    } else if v == 30 {
        'U'
    } else if v == 31 {
        'V'
    } else if v == 32 {
        'W'
    } else if v == 33 {
        'X'
    } else if v == 34 {
        'Y'
    } else if v == 35 {
        'Z'
    } else if v == 36 {
        ' '
    } else if v == 37 {
        '$'
    } else if v == 38 {
        '%'
    } else if v == 39 {
        '*'
    } else if v == 40 {
        '+'
    } else if v == 41 {
        '-'
    } else if v == 42 {
        '.'
    } else if v == 43 {
        '/'
    } else {
        ':'
    }
}

/// Decodes an alphanumeric segment of `n` characters at `pos` into
/// `out`, giving back the position after it.
fn alnum_exec(bytes: &Vec<u8>, pos: usize, n: usize, out: &mut String) -> (r: Result<
    usize,
    QRError,
>)
    requires
        bytes@.len() < 100000,
        pos <= 8 * bytes@.len(),
    ensures
        r is Ok <==> parse_alnum(bytes@, pos as int, n as int) is Some,
        r is Ok ==> ({
            let (cs, used) = parse_alnum(bytes@, pos as int, n as int)->0;
            &&& final(out)@ == old(out)@ + cs
            &&& r->Ok_0 == pos + used
            &&& r->Ok_0 <= 8 * bytes@.len()
        }),
    decreases n,
{
    if n == 0 {
        proof {
            assert(old(out)@ + Seq::<char>::empty() =~= old(out)@);
        }
        return Ok(pos);
    }
    if n >= 2 {
        if pos + 11 > 8 * bytes.len() {
            return Err(QRError { msg: String::from_str("alphanumeric segment past end of data") });
        }
        let v = read_bits(bytes, pos, 11);
        if v >= 45 * 45 {
            return Err(QRError { msg: String::from_str("alphanumeric pair out of range") });
        }
        let ghost out0 = out@;
        push_char(out, alnum(v / 45));
        push_char(out, alnum(v % 45));
        let r = alnum_exec(bytes, pos + 11, n - 2, out);
        match r {
            Ok(p) => {
                proof {
                    let (cs, used) = parse_alnum(bytes@, pos as int + 11, n as int - 2)->0;
                    assert(out@ =~= out0 + (seq![
                        alnum_char(v as int / 45),
                        alnum_char(v as int % 45),
                    ] + cs));
                }
                Ok(p)
            },
            Err(e) => Err(e),
        }
    } else {
        if pos + 6 > 8 * bytes.len() {
            return Err(QRError { msg: String::from_str("alphanumeric segment past end of data") });
        }
        let v = read_bits(bytes, pos, 6);
        if v >= 45 {
            return Err(QRError { msg: String::from_str("alphanumeric character out of range") });
        }
        let ghost out0 = out@;
        push_char(out, alnum(v));
        proof {
            assert(out@ =~= out0 + seq![alnum_char(v as int)]);
        }
        Ok(pos + 6)
    }
}

/// Decodes a byte segment of `n` bytes at `pos` into `out`, giving back
/// the position after it.
fn byte_exec(bytes: &Vec<u8>, pos: usize, n: usize, out: &mut String) -> (r: Result<usize, QRError>)
    requires
        bytes@.len() < 100000,
        pos <= 8 * bytes@.len(),
    ensures
        r is Ok <==> parse_byte_seg(bytes@, pos as int, n as int) is Some,
        r is Ok ==> ({
            let (cs, used) = parse_byte_seg(bytes@, pos as int, n as int)->0;
            &&& final(out)@ == old(out)@ + cs
            &&& r->Ok_0 == pos + used
            &&& r->Ok_0 <= 8 * bytes@.len()
        }),
    decreases n,
{
    if n == 0 {
        proof {
            assert(old(out)@ + Seq::<char>::empty() =~= old(out)@);
        }
        return Ok(pos);
    }
    if pos + 8 > 8 * bytes.len() {
        return Err(QRError { msg: String::from_str("byte segment past end of data") });
    }
    let v = read_bits(bytes, pos, 8);
    proof {
        lemma_pow2s_le16(8);
        reveal_with_fuel(pow2s, 10);
    }
    let ghost out0 = out@;
    push_char(out, (v as u8) as char);
    let r = byte_exec(bytes, pos + 8, n - 1, out);
    match r {
        Ok(p) => {
            proof {
                let (cs, used) = parse_byte_seg(bytes@, pos as int + 8, n as int - 1)->0;
                assert(out@ =~= out0 + (seq![
                    (read_bits_spec(bytes@, pos as int, 8) as u8) as char,
                ] + cs));
            }
            Ok(p)
        },
        Err(e) => Err(e),
    }
}

/// Decodes the data codewords of a symbol into their payload text per the
/// segment grammar of the version. The decoding succeeds exactly where
/// the grammar accepts the stream, and then returns its text.
pub fn data(all_blocks: Vec<u8>, version: u32) -> (r: Result<String, QRError>)
    requires
        1 <= version <= 40,
        all_blocks@.len() < 100000,
    ensures
        r is Ok <==> payload_spec(all_blocks@, version as int) is Some,
        r is Ok ==> r->Ok_0@ == payload_spec(all_blocks@, version as int)->0,
{
    let mut out = String::new();
    let r = segments_exec(&all_blocks, version, 0, &mut out);
    match r {
        Ok(()) => {
            proof {
                assert(out@ =~= payload_spec(all_blocks@, version as int)->0);
            }
            Ok(out)
        },
        Err(e) => Err(e),
    }
}

/// Decodes the segments from `pos` on into `out`.
#[verifier::rlimit(100)]
fn segments_exec(bytes: &Vec<u8>, version: u32, pos: usize, out: &mut String) -> (r: Result<
    (),
    QRError,
>)
    requires
        1 <= version <= 40,
        bytes@.len() < 100000,
        pos <= 8 * bytes@.len(),
    ensures
        r is Ok <==> parse_segments(bytes@, version as int, pos as int) is Some,
        r is Ok ==> final(out)@ == old(out)@ + parse_segments(
            bytes@,
            version as int,
            pos as int,
        )->0,
    decreases 8 * bytes@.len() - pos,
{
    if pos + 4 > 8 * bytes.len() {
        let mut p = pos;
        while p < 8 * bytes.len()
            invariant
                pos <= p <= 8 * bytes@.len(),
                pos + 4 > 8 * bytes@.len(),
                bytes@.len() < 100000,
                forall|k: int| pos <= k < p as int ==> bit_at(bytes@, k) == 0,
            decreases 8 * bytes@.len() - p,
        {
            let byte = bytes[p / 8];
            let bit = (byte >> (7 - (p % 8)) as u8) & 1;
            proof {
                assert(bit == bit_at(bytes@, p as int));
            }
            if bit != 0 {
                proof {
                    assert(!trailing_zero(bytes@, pos as int));
                }
                return Err(QRError { msg: String::from_str("trailing data after last segment") });
            }
            p = p + 1;
        }
        proof {
            assert(trailing_zero(bytes@, pos as int));
            assert(old(out)@ + Seq::<char>::empty() =~= old(out)@);
        }
        return Ok(());
    }
    let mode = read_bits(bytes, pos, 4);
    if mode == 0 {
        proof {
            assert(old(out)@ + Seq::<char>::empty() =~= old(out)@);
        }
        return Ok(());
    }
    if mode == 1 || mode == 2 || mode == 4 {
        let w = count_width_exec(mode, version);
        if pos + 4 + w > 8 * bytes.len() {
            return Err(QRError { msg: String::from_str("length field past end of data") });
        }
        let n = read_bits(bytes, pos + 4, w);
        let seg = if mode == 1 {
            numeric_exec(bytes, pos + 4 + w, n as usize, out)
        } else if mode == 2 {
            alnum_exec(bytes, pos + 4 + w, n as usize, out)
        } else {
            byte_exec(bytes, pos + 4 + w, n as usize, out)
        };
        let p = match seg {
            Ok(p) => p,
            Err(e) => { return Err(e) },
        };
        proof {
            assert(p <= 8 * bytes@.len());
        }
        let ghost mid = out@;
        let rest = segments_exec(bytes, version, p, out);
        match rest {
            Ok(()) => {
                proof {
                    let w_ = count_width(mode as int, version as int);
                    let nn = read_bits_spec(bytes@, pos as int + 4, w_);
                    let seg_spec = if mode == 1 {
                        parse_numeric(bytes@, pos as int + 4 + w_, nn)
                    } else if mode == 2 {
                        parse_alnum(bytes@, pos as int + 4 + w_, nn)
                    } else {
                        parse_byte_seg(bytes@, pos as int + 4 + w_, nn)
                    };
                    let cs = (seg_spec->0).0;
                    let rest_cs = parse_segments(bytes@, version as int, p as int)->0;
                    assert(mid == old(out)@ + cs);
                    assert(out@ == mid + rest_cs);
                    assert(out@ =~= old(out)@ + (cs + rest_cs));
                }
                Ok(())
            },
            Err(e) => Err(e),
        }
    } else if mode == 5 {
        segments_exec(bytes, version, pos + 4, out)
    } else if mode == 9 {
        if pos + 12 > 8 * bytes.len() {
            return Err(QRError { msg: String::from_str("application indicator past end of data") });
        }
        segments_exec(bytes, version, pos + 12, out)
    } else if mode == 7 {
        if pos + 12 > 8 * bytes.len() {
            return Err(QRError { msg: String::from_str("ECI designator past end of data") });
        }
        let d = read_bits(bytes, pos + 4, 8);
        if d > 3 {
            return Err(QRError { msg: String::from_str("unsupported ECI designator") });
        }
        segments_exec(bytes, version, pos + 12, out)
    } else {
        Err(QRError { msg: String::from_str("unknown mode indicator") })
    }
}

/// The width of the character count field for a mode and version.
fn count_width_exec(mode: u32, version: u32) -> (r: usize)
    requires
        mode == 1 || mode == 2 || mode == 4,
    ensures
        r == count_width(mode as int, version as int),
        8 <= r <= 16,
{
    if mode == 1 {
        if version <= 9 {
            10
        } else if version <= 26 {
            12
        } else {
            14
        }
    } else if mode == 2 {
        if version <= 9 {
            9
        } else if version <= 26 {
            11
        } else {
            13
        }
    } else {
        if version <= 9 {
            8
        } else {
            16
        }
    }
}

} // verus!
