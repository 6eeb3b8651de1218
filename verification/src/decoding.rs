//! Base64 decoding: maps an encoded symbol sequence (canonical or
//! filename-safe alphabet, with or without trailing padding) back to the
//! original byte sequence, validating every input character.

use vstd::prelude::*;

use crate::PADDING;

verus! {

/// Error produced when decoding malformed Base64 input.
#[derive(Debug, PartialEq, Eq, Structural)]
pub enum DecodingError {
    /// An input byte that cannot be mapped to a 6-bit value, together with
    /// its 0-based position in the input.
    InvalidChar { value: u8, index: usize },
    /// The overall input length is structurally invalid.
    InvalidSize,
}

/// Does `c` belong to one of the two RFC 4648 alphabets?  The decoder accepts
/// the canonical symbols `+`/`/` and the filename-safe symbols `-`/`_`
/// interchangeably, since it cannot know which alphabet produced the input.
pub open spec fn is_symbol(c: u8) -> bool {
    (0x41 <= c && c <= 0x5a)  // A..Z
    || (0x61 <= c && c <= 0x7a)  // a..z
    || (0x30 <= c && c <= 0x39)  // 0..9
    || c == 0x2b || c == 0x2d  // + or -
    || c == 0x2f || c == 0x5f  // / or _
}

/// The 6-bit value a symbol stands for (meaningful only when `is_symbol(c)`).
pub open spec fn symbol_value(c: u8) -> u8 {
    if 0x41 <= c && c <= 0x5a {
        (c - 0x41) as u8
    } else if 0x61 <= c && c <= 0x7a {
        (c - 0x61 + 0x1a) as u8
    } else if 0x30 <= c && c <= 0x39 {
        (c - 0x30 + 0x34) as u8
    } else if c == 0x2b || c == 0x2d {
        0x3e
    } else {
        0x3f
    }
}

/// Packs four 6-bit values into a 24-bit word (shifts 18, 12, 6, 0).
pub open spec fn pack_sextets(v0: u8, v1: u8, v2: u8, v3: u8) -> u32 {
    ((v0 as u32) << 18) | ((v1 as u32) << 12) | ((v2 as u32) << 6) | (v3 as u32)
}

/// The three bytes held by a 24-bit word, high byte first.
pub open spec fn word_bytes(w: u32) -> Seq<u8> {
    seq![((w >> 16) & 0xff) as u8, ((w >> 8) & 0xff) as u8, (w & 0xff) as u8]
}

/// What decoding a strict (non-final) quadruplet starting at absolute input
/// position `off` yields: three bytes, or the first invalid character.
/// Padding is not allowed here, so `=` itself reports `InvalidChar`.
pub open spec fn spec_decode_inner_quad(c0: u8, c1: u8, c2: u8, c3: u8, off: int) -> Result<
    Seq<u8>,
    DecodingError,
> {
    if !is_symbol(c0) {
        Err(DecodingError::InvalidChar { value: c0, index: off as usize })
    } else if !is_symbol(c1) {
        Err(DecodingError::InvalidChar { value: c1, index: (off + 1) as usize })
    } else if !is_symbol(c2) {
        Err(DecodingError::InvalidChar { value: c2, index: (off + 2) as usize })
    } else if !is_symbol(c3) {
        Err(DecodingError::InvalidChar { value: c3, index: (off + 3) as usize })
    } else {
        Ok(
            word_bytes(
                pack_sextets(symbol_value(c0), symbol_value(c1), symbol_value(c2), symbol_value(c3)),
            ),
        )
    }
}

/// What decoding the final quadruplet yields.  The first two positions must
/// be data; position 2 may be padding only together with position 3; a
/// padding position contributes no output byte.
pub open spec fn spec_decode_last_quad(c0: u8, c1: u8, c2: u8, c3: u8, off: int) -> Result<
    Seq<u8>,
    DecodingError,
> {
    if c0 == PADDING || c1 == PADDING {
        Err(DecodingError::InvalidSize)
    } else if c2 == PADDING && c3 != PADDING {
        Err(DecodingError::InvalidSize)
    } else if !is_symbol(c0) {
        Err(DecodingError::InvalidChar { value: c0, index: off as usize })
    } else if !is_symbol(c1) {
        Err(DecodingError::InvalidChar { value: c1, index: (off + 1) as usize })
    } else if c2 != PADDING && !is_symbol(c2) {
        Err(DecodingError::InvalidChar { value: c2, index: (off + 2) as usize })
    } else if c3 != PADDING && !is_symbol(c3) {
        Err(DecodingError::InvalidChar { value: c3, index: (off + 3) as usize })
    } else {
        let w = pack_sextets(
            symbol_value(c0),
            symbol_value(c1),
            if c2 == PADDING {
                0
            } else {
                symbol_value(c2)
            },
            if c3 == PADDING {
                0
            } else {
                symbol_value(c3)
            },
        );
        if c2 == PADDING {
            Ok(word_bytes(w).take(1))
        } else if c3 == PADDING {
            Ok(word_bytes(w).take(2))
        } else {
            Ok(word_bytes(w))
        }
    }
}

/// Maps one input byte to its 6-bit value, or reports it as invalid at the
/// given absolute input position.
fn decode_singlet(ch: u8, position: usize) -> (r: Result<u8, DecodingError>)
    ensures
        is_symbol(ch) ==> r == Ok::<u8, DecodingError>(symbol_value(ch)),
        !is_symbol(ch) ==> r == Err::<u8, DecodingError>(
            DecodingError::InvalidChar { value: ch, index: position },
        ),
{
    if 0x41 <= ch && ch <= 0x5a {
        Ok(ch - 0x41)  // A..Z
    } else if 0x61 <= ch && ch <= 0x7a {
        Ok(ch - 0x61 + 0x1a)  // a..z
    } else if 0x30 <= ch && ch <= 0x39 {
        Ok(ch - 0x30 + 0x34)  // 0..9
    } else if ch == 0x2b || ch == 0x2d {
        Ok(0x3e)  // + or -
    } else if ch == 0x2f || ch == 0x5f {
        Ok(0x3f)  // / or _
    } else {
        Err(DecodingError::InvalidChar { value: ch, index: position })
    }
}

/// Decodes a strict (non-final) quadruplet, appending three bytes to
/// `output`, or reports the first invalid character without touching
/// `output`.
fn decode_quadruplet_inner(
    c0: u8,
    c1: u8,
    c2: u8,
    c3: u8,
    pos0: usize,
    output: &mut Vec<u8>,
) -> (r: Result<(), DecodingError>)
    requires
        pos0 + 3 <= usize::MAX,
    ensures
        (match spec_decode_inner_quad(c0, c1, c2, c3, pos0 as int) {
            Ok(bs) => r == Ok::<(), DecodingError>(()) && final(output)@ == old(output)@ + bs,
            Err(e) => r == Err::<(), DecodingError>(e) && final(output)@ == old(output)@,
        }),
{
    let d0 = match decode_singlet(c0, pos0) {
        Ok(d) => d,
        Err(err) => return Err(err),
    };
    let d1 = match decode_singlet(c1, pos0 + 1) {
        Ok(d) => d,
        Err(err) => return Err(err),
    };
    let d2 = match decode_singlet(c2, pos0 + 2) {
        Ok(d) => d,
        Err(err) => return Err(err),
    };
    let d3 = match decode_singlet(c3, pos0 + 3) {
        Ok(d) => d,
        Err(err) => return Err(err),
    };
    let value: u32 = ((d0 as u32) << 18) | ((d1 as u32) << 12) | ((d2 as u32) << 6) | (d3 as u32);
    let ghost pre = output@;
    output.push(((value >> 16) & 0xff) as u8);
    output.push(((value >> 8) & 0xff) as u8);
    output.push((value & 0xff) as u8);
    proof {
        assert(output@ =~= pre + word_bytes(value));
    }
    Ok(())
}

/// Decodes the final quadruplet (`c2`/`c3` may be the padding symbol, real
/// or synthesized), appending one to three bytes to `output`; malformed
/// padding yields `InvalidSize`, an unmappable character `InvalidChar`.
fn decode_quadruplet_last(
    c0: u8,
    c1: u8,
    c2: u8,
    c3: u8,
    pos0: usize,
    output: &mut Vec<u8>,
) -> (r: Result<(), DecodingError>)
    requires
        pos0 + 1 <= usize::MAX,
        c2 != PADDING ==> pos0 + 2 <= usize::MAX,
        c3 != PADDING ==> pos0 + 3 <= usize::MAX,
    ensures
        (match spec_decode_last_quad(c0, c1, c2, c3, pos0 as int) {
            Ok(bs) => r == Ok::<(), DecodingError>(()) && final(output)@ == old(output)@ + bs,
            Err(e) => r == Err::<(), DecodingError>(e) && final(output)@ == old(output)@,
        }),
{
    if c0 == PADDING || c1 == PADDING {
        return Err(DecodingError::InvalidSize);
    }
    if c2 == PADDING && c3 != PADDING {
        return Err(DecodingError::InvalidSize);
    }
    let d0 = match decode_singlet(c0, pos0) {
        Ok(d) => d,
        Err(err) => return Err(err),
    };
    let d1 = match decode_singlet(c1, pos0 + 1) {
        Ok(d) => d,
        Err(err) => return Err(err),
    };
    let d2 = if c2 == PADDING {
        0
    } else {
        match decode_singlet(c2, pos0 + 2) {
            Ok(d) => d,
            Err(err) => return Err(err),
        }
    };
    let d3 = if c3 == PADDING {
        0
    } else {
        match decode_singlet(c3, pos0 + 3) {
            Ok(d) => d,
            Err(err) => return Err(err),
        }
    };
    let value: u32 = ((d0 as u32) << 18) | ((d1 as u32) << 12) | ((d2 as u32) << 6) | (d3 as u32);
    let ghost pre = output@;
    let ghost bs = spec_decode_last_quad(c0, c1, c2, c3, pos0 as int)->Ok_0;
    output.push(((value >> 16) & 0xff) as u8);
    if c2 != PADDING {
        output.push(((value >> 8) & 0xff) as u8);
    }
    if c3 != PADDING {
        output.push((value & 0xff) as u8);
    }
    proof {
        assert(output@ =~= pre + bs);
    }
    Ok(())
}

/// What decoding the trailing group of a nonempty input yields, where
/// `s` holds the last `input.len() mod 4` characters (or the last 4 when the
/// length is a multiple of 4) and the group is completed with synthesized
/// padding.  A single trailing character can never form a group.
pub open spec fn spec_decode_tail(s: Seq<u8>, off: int) -> Result<Seq<u8>, DecodingError>
    recommends
        1 <= s.len() <= 4,
{
    if s.len() == 1 {
        Err(DecodingError::InvalidSize)
    } else {
        spec_decode_last_quad(
            s[0],
            s[1],
            if s.len() >= 3 {
                s[2]
            } else {
                PADDING
            },
            if s.len() >= 4 {
                s[3]
            } else {
                PADDING
            },
            off,
        )
    }
}

/// Decoding a nonempty suffix of the input that starts at absolute position
/// `off`: strict quadruplets as long as more than four characters remain,
/// then the trailing group.
pub open spec fn spec_decode_from(s: Seq<u8>, off: int) -> Result<Seq<u8>, DecodingError>
    recommends
        s.len() >= 1,
    decreases s.len(),
{
    if s.len() >= 5 {
        match spec_decode_inner_quad(s[0], s[1], s[2], s[3], off) {
            Ok(bs) => match spec_decode_from(s.skip(4), off + 4) {
                Ok(rest) => Ok(bs + rest),
                Err(e) => Err(e),
            },
            Err(e) => Err(e),
        }
    } else if s.len() == 0 {
        Ok(Seq::empty())
    } else {
        spec_decode_tail(s, off)
    }
}

/// The decoder's full specification: the bytes that decoding `s` yields, or
/// the error it reports.
pub open spec fn spec_decode(s: Seq<u8>) -> Result<Seq<u8>, DecodingError> {
    if s.len() == 0 {
        Ok(Seq::empty())
    } else {
        spec_decode_from(s, 0)
    }
}

/// The executable result `r` carries exactly the mathematical result `s`.
pub open spec fn decodes_to(
    r: Result<Vec<u8>, DecodingError>,
    s: Result<Seq<u8>, DecodingError>,
) -> bool {
    match r {
        Ok(v) => s == Ok::<Seq<u8>, DecodingError>(v@),
        Err(e) => s == Err::<Seq<u8>, DecodingError>(e),
    }
}

/// Bytes already decoded, followed by whatever the rest of the input yields.
pub open spec fn spec_prepend(pre: Seq<u8>, r: Result<Seq<u8>, DecodingError>) -> Result<
    Seq<u8>,
    DecodingError,
> {
    match r {
        Ok(rest) => Ok(pre + rest),
        Err(e) => Err(e),
    }
}

/// Decodes Base64 input (canonical or filename-safe symbols, padded or with
/// up to two trailing padding characters missing) to the original bytes.
pub fn decode_internal(input: &[u8]) -> (r: Result<Vec<u8>, DecodingError>)
    ensures
        decodes_to(r, spec_decode(input@)),
{
    if input.len() == 0 {
        let empty: Vec<u8> = Vec::new();
        proof {
            assert(empty@ =~= Seq::<u8>::empty());
        }
        return Ok(empty);
    }
    let len = input.len();
    let (size0, missing_pad): (usize, usize) = if len % 4 == 0 {
        (len / 4 - 1, 0)
    } else {
        (len / 4, 4 - len % 4)
    };
    let mut result: Vec<u8> = Vec::new();
    proof {
        assert(input@.skip(0) =~= input@);
        match spec_decode_from(input@, 0) {
            Ok(rest) => {
                assert(result@ + rest =~= rest);
            },
            Err(_) => {},
        }
    }
    let mut idx: usize = 0;
    while idx < size0
        invariant
            idx <= size0,
            len == input@.len(),
            1 <= len <= usize::MAX,
            size0 == if len % 4 == 0 {
                (len / 4 - 1) as int
            } else {
                (len / 4) as int
            },
            spec_decode(input@) == spec_prepend(
                result@,
                spec_decode_from(input@.skip(4 * idx), 4 * idx),
            ),
        decreases size0 - idx,
    {
        let ridx = 4 * idx;
        proof {
            lemma_group_bound(len as int, size0 as int, idx as int);
            assert(input@.skip(4 * idx).len() >= 5);
            assert(input@.skip(4 * idx)[0] == input@[4 * idx]);
            assert(input@.skip(4 * idx)[1] == input@[4 * idx + 1]);
            assert(input@.skip(4 * idx)[2] == input@[4 * idx + 2]);
            assert(input@.skip(4 * idx)[3] == input@[4 * idx + 3]);
        }
        let ghost pre = result@;
        let c0 = input[ridx];
        let c1 = input[ridx + 1];
        let c2 = input[ridx + 2];
        let c3 = input[ridx + 3];
        match decode_quadruplet_inner(c0, c1, c2, c3, ridx, &mut result) {
            Ok(()) => {},
            Err(err) => {
                return Err(err);
            },
        }
        proof {
            assert(input@.skip(4 * idx).skip(4) =~= input@.skip(4 * (idx + 1)));
            let quad = spec_decode_inner_quad(c0, c1, c2, c3, ridx as int);
            let rec = spec_decode_from(input@.skip(4 * (idx + 1)), 4 * (idx + 1));
            match rec {
                Ok(rest) => {
                    assert(pre + (quad->Ok_0 + rest) =~= (pre + quad->Ok_0) + rest);
                },
                Err(_) => {},
            }
        }
        idx += 1;
    }
    let idx0 = 4 * size0;
    proof {
        lemma_tail_bound(len as int, size0 as int, missing_pad as int);
    }
    if missing_pad == 3 {
        return Err(DecodingError::InvalidSize);
    }
    proof {
        assert(input@.skip(4 * size0)[0] == input@[4 * size0]);
        assert(input@.skip(4 * size0)[1] == input@[4 * size0 + 1]);
        if missing_pad < 2 {
            assert(input@.skip(4 * size0)[2] == input@[4 * size0 + 2]);
        }
        if missing_pad == 0 {
            assert(input@.skip(4 * size0)[3] == input@[4 * size0 + 3]);
        }
    }
    let c0 = input[idx0];
    let c1 = input[idx0 + 1];
    let c2 = if missing_pad >= 2 {
        PADDING
    } else {
        input[idx0 + 2]
    };
    let c3 = if missing_pad >= 1 {
        PADDING
    } else {
        input[idx0 + 3]
    };
    let ghost pre = result@;
    match decode_quadruplet_last(c0, c1, c2, c3, idx0, &mut result) {
        Ok(()) => {
            proof {
                let bs = spec_decode_last_quad(c0, c1, c2, c3, idx0 as int)->Ok_0;
                assert(result@ =~= pre + bs);
            }
            Ok(result)
        },
        Err(err) => Err(err),
    }
}

/// While strict quadruplets remain, at least five characters remain.
proof fn lemma_group_bound(len: int, size0: int, idx: int)
    requires
        len >= 1,
        size0 == if len % 4 == 0 {
            len / 4 - 1
        } else {
            len / 4
        },
        0 <= idx < size0,
    ensures
        4 * idx + 4 + 1 <= len,
{
}

/// The trailing group holds between one and four characters, and its length
/// is four exactly when the input length is a multiple of four, otherwise
/// the input length's remainder.
proof fn lemma_tail_bound(len: int, size0: int, missing_pad: int)
    requires
        len >= 1,
        size0 == if len % 4 == 0 {
            len / 4 - 1
        } else {
            len / 4
        },
        missing_pad == if len % 4 == 0 {
            0
        } else {
            4 - len % 4
        },
    ensures
        1 <= len - 4 * size0 <= 4,
        len - 4 * size0 == 4 - missing_pad,
        0 <= missing_pad <= 3,
{
}

} // verus!

