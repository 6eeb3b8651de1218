//! Base64 encoding: maps a byte sequence to symbols of a 64-entry alphabet
//! table, three input bytes to four symbols, padding a final partial group
//! with `=`.

use vstd::prelude::*;

use crate::PADDING;

verus! {

/// The symbol that the RFC 4648 alphabet assigns to the 6-bit value `v`:
/// letters, digits, then `+`/`/` (canonical) or `-`/`_` (filename-safe).
pub open spec fn alphabet_sym(v: int, filename_safe: bool) -> u8 {
    if 0 <= v && v < 26 {
        (0x41 + v) as u8  // A..Z
    } else if 26 <= v && v < 52 {
        (0x61 + (v - 26)) as u8  // a..z
    } else if 52 <= v && v < 62 {
        (0x30 + (v - 52)) as u8  // 0..9
    } else if v == 62 {
        if filename_safe {
            0x2d
        } else {
            0x2b
        }
    } else {
        if filename_safe {
            0x5f
        } else {
            0x2f
        }
    }
}

/// The alphabet as a 64-entry table: the index is the 6-bit value a symbol
/// stands for.
pub open spec fn spec_alphabet(filename_safe: bool) -> Seq<u8> {
    Seq::new(64, |v: int| alphabet_sym(v, filename_safe))
}

/// The 24-bit word that a group of (up to) three input bytes packs into,
/// big-endian.
pub open spec fn spec_word(b0: u8, b1: u8, b2: u8) -> u32 {
    ((b0 as u32) << 16) | ((b1 as u32) << 8) | (b2 as u32)
}

/// The 6-bit window of `w` at shift `6 * (3 - run)`, windows numbered from
/// most significant to least significant.
pub open spec fn spec_window(w: u32, run: int) -> u32 {
    (w >> ((6 * (3 - run)) as u32)) & 0x3f
}

/// The symbol emitted for the 6-bit window of `w` numbered `run`.
pub open spec fn spec_sym_at(w: u32, run: int, table: Seq<u8>) -> u8 {
    table[spec_window(w, run) as int]
}

/// Base64 encoding of `b` over the 64-entry `table`: each full triplet
/// becomes four symbols; one leftover byte becomes two symbols and two
/// padding characters; two leftover bytes three symbols and one padding
/// character.
pub open spec fn spec_encode_with_table(b: Seq<u8>, table: Seq<u8>) -> Seq<u8>
    recommends
        table.len() == 64,
    decreases b.len(),
{
    if b.len() == 0 {
        Seq::empty()
    } else if b.len() == 1 {
        let w = spec_word(b[0], 0, 0);
        seq![spec_sym_at(w, 0, table), spec_sym_at(w, 1, table), PADDING, PADDING]
    } else if b.len() == 2 {
        let w = spec_word(b[0], b[1], 0);
        seq![
            spec_sym_at(w, 0, table),
            spec_sym_at(w, 1, table),
            spec_sym_at(w, 2, table),
            PADDING,
        ]
    } else {
        let w = spec_word(b[0], b[1], b[2]);
        seq![
            spec_sym_at(w, 0, table),
            spec_sym_at(w, 1, table),
            spec_sym_at(w, 2, table),
            spec_sym_at(w, 3, table),
        ] + spec_encode_with_table(b.skip(3), table)
    }
}

/// Base64 encoding of `b` with the canonical or the filename-safe alphabet.
pub open spec fn spec_encode(b: Seq<u8>, filename_safe: bool) -> Seq<u8> {
    spec_encode_with_table(b, spec_alphabet(filename_safe))
}

/// Builds the 64-entry encoding table for the chosen alphabet.
pub fn encoding_table(filename_safe: bool) -> (t: Vec<u8>)
    ensures
        t@ == spec_alphabet(filename_safe),
{
    let mut t: Vec<u8> = Vec::new();
    let mut v: u8 = 0;
    while v < 64
        invariant
            v <= 64,
            t@.len() == v as int,
            forall|i: int| 0 <= i < v ==> #[trigger] t@[i] == alphabet_sym(i, filename_safe),
        decreases 64 - v,
    {
        let c: u8 = if v < 26 {
            0x41 + v
        } else if v < 52 {
            0x61 + (v - 26)
        } else if v < 62 {
            0x30 + (v - 52)
        } else if v == 62 {
            if filename_safe {
                0x2d
            } else {
                0x2b
            }
        } else {
            if filename_safe {
                0x5f
            } else {
                0x2f
            }
        };
        t.push(c);
        v += 1;
    }
    proof {
        assert(t@ =~= spec_alphabet(filename_safe));
    }
    t
}

/// Packs four bytes into a 32-bit word, big-endian.
fn bytes_to_u32(b3: u8, b2: u8, b1: u8, b0: u8) -> (v: u32)
    ensures
        b3 == 0 ==> v == spec_word(b2, b1, b0),
{
    let v: u32 = ((b3 as u32) << 24) | ((b2 as u32) << 16) | ((b1 as u32) << 8) | (b0 as u32);
    proof {
        assert(b3 == 0 ==> ((b3 as u32) << 24) | ((b2 as u32) << 16) | ((b1 as u32) << 8) | (
        b0 as u32) == ((b2 as u32) << 16) | ((b1 as u32) << 8) | (b0 as u32)) by (bit_vector);
    }
    v
}

/// Emits the first `count_to_encode + 1` symbols of the 24-bit word held in
/// `value`, looked up in the table window by window.
fn encode_triplet(value: u32, output: &mut Vec<u8>, count_to_encode: u32, encoding_table: &[u8])
    requires
        encoding_table@.len() == 64,
        1 <= count_to_encode <= 3,
    ensures
        final(output)@ == old(output)@ + Seq::new(
            (count_to_encode + 1) as nat,
            |run: int| spec_sym_at(value, run, encoding_table@),
        ),
{
    let mut run: u32 = 0;
    while run < count_to_encode + 1
        invariant
            run <= count_to_encode + 1,
            count_to_encode <= 3,
            encoding_table@.len() == 64,
            output@ == old(output)@ + Seq::new(
                run as nat,
                |r: int| spec_sym_at(value, r, encoding_table@),
            ),
        decreases count_to_encode + 1 - run,
    {
        let shift: u32 = 6 * (3 - run);
        proof {
            assert(((value >> shift) & 0x3f) < 64) by (bit_vector);
        }
        let sym_idx: usize = ((value >> shift) & 0x3f) as usize;
        output.push(encoding_table[sym_idx]);
        proof {
            assert(output@ =~= old(output)@ + Seq::new(
                (run + 1) as nat,
                |r: int| spec_sym_at(value, r, encoding_table@),
            ));
        }
        run += 1;
    }
}

/// Encodes `bytes` as Base64 using the given 64-entry alphabet table.
pub fn encode_internal(bytes: &[u8], encoding_table: &[u8]) -> (r: Vec<u8>)
    requires
        encoding_table@.len() == 64,
    ensures
        r@ == spec_encode_with_table(bytes@, encoding_table@),
{
    let len = bytes.len();
    let size0 = len / 3;
    let mut result: Vec<u8> = Vec::new();
    proof {
        assert(bytes@.skip(0) =~= bytes@);
        assert(result@ + spec_encode_with_table(bytes@, encoding_table@)
            =~= spec_encode_with_table(bytes@, encoding_table@));
    }
    let mut idx: usize = 0;
    while idx < size0
        invariant
            idx <= size0,
            len == bytes@.len(),
            size0 == bytes@.len() / 3,
            encoding_table@.len() == 64,
            spec_encode_with_table(bytes@, encoding_table@) == result@ + spec_encode_with_table(
                bytes@.skip(3 * idx),
                encoding_table@,
            ),
        decreases size0 - idx,
    {
        proof {
            assert(bytes@.len() == 3 * (bytes@.len() / 3) + bytes@.len() % 3);
            assert(3 * idx + 3 <= bytes@.len());
            assert(bytes@.skip(3 * idx)[0] == bytes@[3 * idx]);
            assert(bytes@.skip(3 * idx)[1] == bytes@[3 * idx + 1]);
            assert(bytes@.skip(3 * idx)[2] == bytes@[3 * idx + 2]);
        }
        let ridx = 3 * idx;
        let val = bytes_to_u32(0, bytes[ridx], bytes[ridx + 1], bytes[ridx + 2]);
        let ghost pre = result@;
        encode_triplet(val, &mut result, 3, encoding_table);
        proof {
            let t = encoding_table@;
            let suffix = bytes@.skip(3 * idx);
            assert(Seq::new(4, |r: int| spec_sym_at(val, r, t)) =~= seq![
                spec_sym_at(val, 0, t),
                spec_sym_at(val, 1, t),
                spec_sym_at(val, 2, t),
                spec_sym_at(val, 3, t),
            ]);
            assert(suffix.skip(3) =~= bytes@.skip(3 * (idx + 1)));
            assert(pre + spec_encode_with_table(suffix, t) =~= result@ + spec_encode_with_table(
                bytes@.skip(3 * (idx + 1)),
                t,
            ));
        }
        idx += 1;
    }
    proof {
        assert(bytes@.len() == 3 * (bytes@.len() / 3) + bytes@.len() % 3);
    }
    let rem = bytes.len() % 3;
    if rem == 1 {
        proof {
            assert(bytes@.skip(3 * size0)[0] == bytes@[3 * size0]);
        }
        let val = bytes_to_u32(0, bytes[3 * size0], 0, 0);
        let ghost pre = result@;
        encode_triplet(val, &mut result, 1, encoding_table);
        result.push(PADDING);
        result.push(PADDING);
        proof {
            let t = encoding_table@;
            let suffix = bytes@.skip(3 * size0);
            assert(result@ =~= pre + spec_encode_with_table(suffix, t));
        }
    } else if rem == 2 {
        proof {
            assert(bytes@.skip(3 * size0)[0] == bytes@[3 * size0]);
            assert(bytes@.skip(3 * size0)[1] == bytes@[3 * size0 + 1]);
        }
        let val = bytes_to_u32(0, bytes[3 * size0], bytes[3 * size0 + 1], 0);
        let ghost pre = result@;
        encode_triplet(val, &mut result, 2, encoding_table);
        result.push(PADDING);
        proof {
            let t = encoding_table@;
            let suffix = bytes@.skip(3 * size0);
            assert(result@ =~= pre + spec_encode_with_table(suffix, t));
        }
    } else {
        proof {
            assert(bytes@.skip(3 * size0) =~= Seq::<u8>::empty());
            assert(result@ + spec_encode_with_table(bytes@.skip(3 * size0), encoding_table@)
                =~= result@);
        }
    }
    result
}

} // verus!
