//! RFC 4648 Base64 encoding and decoding over arbitrary byte sequences,
//! for the canonical alphabet (`+`/`/`) and the filename-safe alphabet
//! (`-`/`_`).  The decoder accepts symbols of either alphabet and tolerates
//! up to two missing trailing padding characters.

use vstd::prelude::*;

pub mod decoding;
pub mod encoding;

use crate::decoding::DecodingError;
use crate::decoding::decode_internal;
use crate::decoding::decodes_to;
use crate::decoding::is_symbol;
use crate::decoding::pack_sextets;
use crate::decoding::spec_decode;
use crate::decoding::spec_decode_from;
use crate::decoding::spec_decode_inner_quad;
use crate::decoding::symbol_value;
use crate::decoding::word_bytes;
use crate::encoding::alphabet_sym;
use crate::encoding::encode_internal;
use crate::encoding::encoding_table;
use crate::encoding::spec_alphabet;
use crate::encoding::spec_encode;
use crate::encoding::spec_encode_with_table;
use crate::encoding::spec_sym_at;
use crate::encoding::spec_window;
use crate::encoding::spec_word;

verus! {

/// The padding symbol `=`, used to mark absent trailing data in the final
/// group of four symbols.
pub const PADDING: u8 = 0x3d;

/// Encodes the bytes into canonical Base64 according to RFC 4648.
pub fn encode(bytes: &[u8]) -> (r: Vec<u8>)
    ensures
        r@ == spec_encode(bytes@, false),
{
    let table = encoding_table(false);
    encode_internal(bytes, table.as_slice())
}

/// Encodes the bytes into filename-safe Base64 according to RFC 4648,
/// which uses `-` and `_` in place of `+` and `/`.
pub fn encode_fns(bytes: &[u8]) -> (r: Vec<u8>)
    ensures
        r@ == spec_encode(bytes@, true),
{
    let table = encoding_table(true);
    encode_internal(bytes, table.as_slice())
}

/// Decodes Base64 input (canonical or filename-safe) to the original bytes.
/// Up to two missing trailing padding characters are tolerated; newlines and
/// any other foreign bytes are input errors.
pub fn decode(bytes: &[u8]) -> (r: Result<Vec<u8>, DecodingError>)
    ensures
        decodes_to(r, spec_decode(bytes@)),
{
    decode_internal(bytes)
}

/// Bit-level facts about one 24-bit group: the four 6-bit windows repack to
/// the word, the word's bytes are the original ones, and windows over
/// zero-filled positions are zero.
proof fn lemma_windows(b0: u8, b1: u8, b2: u8)
    by (bit_vector)
    ensures
        spec_window(spec_word(b0, b1, b2), 0) < 64,
        spec_window(spec_word(b0, b1, b2), 1) < 64,
        spec_window(spec_word(b0, b1, b2), 2) < 64,
        spec_window(spec_word(b0, b1, b2), 3) < 64,
        pack_sextets(
            spec_window(spec_word(b0, b1, b2), 0) as u8,
            spec_window(spec_word(b0, b1, b2), 1) as u8,
            spec_window(spec_word(b0, b1, b2), 2) as u8,
            spec_window(spec_word(b0, b1, b2), 3) as u8,
        ) == spec_word(b0, b1, b2),
        (spec_word(b0, b1, b2) >> 16) & 0xff == b0 as u32,
        (spec_word(b0, b1, b2) >> 8) & 0xff == b1 as u32,
        spec_word(b0, b1, b2) & 0xff == b2 as u32,
        b2 == 0 ==> spec_window(spec_word(b0, b1, b2), 3) == 0,
        b1 == 0 && b2 == 0 ==> spec_window(spec_word(b0, b1, b2), 2) == 0,
{
}

/// Every alphabet symbol is accepted by the decoder's character
/// classification, is distinct from the padding symbol, and decodes back to
/// the 6-bit value it was chosen for.
proof fn lemma_alphabet_decodes(filename_safe: bool)
    ensures
        forall|v: int|
            0 <= v < 64 ==> is_symbol(#[trigger] spec_alphabet(filename_safe)[v])
                && spec_alphabet(filename_safe)[v] != PADDING
                && symbol_value(spec_alphabet(filename_safe)[v]) == v,
{
    assert forall|v: int| 0 <= v < 64 implies is_symbol(
        #[trigger] spec_alphabet(filename_safe)[v],
    ) && spec_alphabet(filename_safe)[v] != PADDING && symbol_value(
        spec_alphabet(filename_safe)[v],
    ) == v by {
        assert(spec_alphabet(filename_safe)[v] == alphabet_sym(v, filename_safe));
    }
}

/// An encoding of a nonempty input holds at least one full group of four
/// symbols.
proof fn lemma_encode_len_lower(b: Seq<u8>, t: Seq<u8>)
    requires
        b.len() >= 1,
    ensures
        spec_encode_with_table(b, t).len() >= 4,
{
}

/// Decoding an encoded nonempty sequence from any starting offset restores
/// the bytes, provided every table entry decodes back to its index.
proof fn lemma_decode_of_encode_from(b: Seq<u8>, t: Seq<u8>, off: int)
    requires
        t.len() == 64,
        forall|v: int|
            0 <= v < 64 ==> is_symbol(#[trigger] t[v]) && t[v] != PADDING && symbol_value(t[v])
                == v,
        b.len() >= 1,
    ensures
        spec_decode_from(spec_encode_with_table(b, t), off) == Ok::<Seq<u8>, DecodingError>(b),
    decreases b.len(),
{
    let enc = spec_encode_with_table(b, t);
    if b.len() == 1 {
        let w = spec_word(b[0], 0, 0);
        lemma_windows(b[0], 0, 0);
        let s0 = spec_sym_at(w, 0, t);
        let s1 = spec_sym_at(w, 1, t);
        assert(symbol_value(s0) == spec_window(w, 0));
        assert(symbol_value(s1) == spec_window(w, 1));
        let w2 = pack_sextets(symbol_value(s0), symbol_value(s1), 0, 0);
        assert(w2 == w);
        assert(word_bytes(w2).take(1) =~= seq![b[0]]);
        assert(b =~= seq![b[0]]);
    } else if b.len() == 2 {
        let w = spec_word(b[0], b[1], 0);
        lemma_windows(b[0], b[1], 0);
        let s0 = spec_sym_at(w, 0, t);
        let s1 = spec_sym_at(w, 1, t);
        let s2 = spec_sym_at(w, 2, t);
        assert(symbol_value(s0) == spec_window(w, 0));
        assert(symbol_value(s1) == spec_window(w, 1));
        assert(symbol_value(s2) == spec_window(w, 2));
        let w2 = pack_sextets(symbol_value(s0), symbol_value(s1), symbol_value(s2), 0);
        assert(w2 == w);
        assert(word_bytes(w2).take(2) =~= seq![b[0], b[1]]);
        assert(b =~= seq![b[0], b[1]]);
    } else {
        let w = spec_word(b[0], b[1], b[2]);
        lemma_windows(b[0], b[1], b[2]);
        let s0 = spec_sym_at(w, 0, t);
        let s1 = spec_sym_at(w, 1, t);
        let s2 = spec_sym_at(w, 2, t);
        let s3 = spec_sym_at(w, 3, t);
        assert(symbol_value(s0) == spec_window(w, 0));
        assert(symbol_value(s1) == spec_window(w, 1));
        assert(symbol_value(s2) == spec_window(w, 2));
        assert(symbol_value(s3) == spec_window(w, 3));
        let w2 = pack_sextets(symbol_value(s0), symbol_value(s1), symbol_value(s2), symbol_value(s3));
        assert(w2 == w);
        let rest = spec_encode_with_table(b.skip(3), t);
        assert(enc == seq![s0, s1, s2, s3] + rest);
        assert(enc[0] == s0 && enc[1] == s1 && enc[2] == s2 && enc[3] == s3);
        if b.len() == 3 {
            assert(b.skip(3).len() == 0);
            assert(rest.len() == 0);
            assert(enc.len() == 4);
            assert(word_bytes(w2) =~= seq![b[0], b[1], b[2]]);
            assert(b =~= seq![b[0], b[1], b[2]]);
        } else {
            lemma_encode_len_lower(b.skip(3), t);
            assert(enc.len() >= 8);
            assert(spec_decode_inner_quad(s0, s1, s2, s3, off) == Ok::<Seq<u8>, DecodingError>(
                word_bytes(w),
            ));
            assert(enc.skip(4) =~= rest);
            lemma_decode_of_encode_from(b.skip(3), t, off + 4);
            assert(word_bytes(w) + b.skip(3) =~= b);
        }
    }
}

/// Helper for `lemma_trailing_singlet_rejected`, generalized over the
/// starting offset of a suffix.
proof fn lemma_trailing_singlet_from(s: Seq<u8>, off: int)
    requires
        s.len() % 4 == 1,
    ensures
        spec_decode_from(s, off).is_err(),
        (forall|i: int| 0 <= i < s.len() - 1 ==> is_symbol(#[trigger] s[i]))
            ==> spec_decode_from(s, off) == Err::<Seq<u8>, DecodingError>(
            DecodingError::InvalidSize,
        ),
    decreases s.len(),
{
    if s.len() > 1 {
        assert(s.len() >= 5);
        match spec_decode_inner_quad(s[0], s[1], s[2], s[3], off) {
            Ok(_) => {
                assert(s.skip(4).len() % 4 == 1);
                lemma_trailing_singlet_from(s.skip(4), off + 4);
                if forall|i: int| 0 <= i < s.len() - 1 ==> is_symbol(#[trigger] s[i]) {
                    assert forall|i: int|
                        0 <= i < s.skip(4).len() - 1 implies is_symbol(
                        #[trigger] s.skip(4)[i],
                    ) by {
                        assert(s.skip(4)[i] == s[i + 4]);
                        assert(is_symbol(s[i + 4]));
                    }
                }
            },
            Err(_) => {
                if forall|i: int| 0 <= i < s.len() - 1 ==> is_symbol(#[trigger] s[i]) {
                    assert(is_symbol(s[0]) && is_symbol(s[1]) && is_symbol(s[2]) && is_symbol(
                        s[3],
                    ));
                    assert(false);
                }
            },
        }
    }
}

/// A trailing group of one character can never be completed by synthesized
/// padding: an input whose length leaves remainder 1 modulo 4 never
/// decodes.  When every character of its strict-quadruplet prefix is a
/// valid symbol, so that no `InvalidChar` error comes first, the error is
/// precisely `InvalidSize`.
pub proof fn lemma_trailing_singlet_rejected(s: Seq<u8>)
    requires
        s.len() % 4 == 1,
    ensures
        spec_decode(s).is_err(),
        (forall|i: int| 0 <= i < s.len() - 1 ==> is_symbol(#[trigger] s[i])) ==> spec_decode(s)
            == Err::<Seq<u8>, DecodingError>(DecodingError::InvalidSize),
{
    lemma_trailing_singlet_from(s, 0);
}

/// Round trip: decoding an encoding yields exactly the original byte
/// sequence, for either alphabet — and the single alphabet-agnostic decoder
/// restores bytes encoded with the other alphabet just as well.
pub proof fn lemma_round_trip(b: Seq<u8>, filename_safe: bool)
    ensures
        spec_decode(spec_encode(b, filename_safe)) == Ok::<Seq<u8>, DecodingError>(b),
{
    lemma_alphabet_decodes(filename_safe);
    if b.len() == 0 {
        assert(spec_encode(b, filename_safe).len() == 0);
        assert(b =~= Seq::<u8>::empty());
    } else {
        lemma_encode_len_lower(b, spec_alphabet(filename_safe));
        lemma_decode_of_encode_from(b, spec_alphabet(filename_safe), 0);
    }
}

} // verus!
