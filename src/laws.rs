//! Properties that relate encoding and decoding, stated over the spec
//! functions that the readers' and writers' contracts use.
use vstd::prelude::*;

use crate::wire::{
    bits32, bits64, bits_of, encode_bits, frame, lemma_bits_of_encoding, lemma_encoding_fits,
    lemma_encoding_len, lemma_frame_encoding, lemma_span_values, signed32, signed64, span,
    VarIntError,
};
use crate::zigzag::{lemma_unzigzag_round_trip, unzigzag, zigzag};

verus! {

/// Every signed 32-bit value comes back from its own encoding: a reader that
/// meets the encoding, whatever follows it, takes exactly its bytes and returns
/// the value, `i32::MIN`, `i32::MAX`, 0 and -1 included.
pub proof fn lemma_round_trip_32(v: i32, rest: Seq<u8>)
    ensures
        encode_bits(bits32(v as int)).len() <= 5,
        frame(encode_bits(bits32(v as int)) + rest, 5) == Ok::<nat, VarIntError>(
            encode_bits(bits32(v as int)).len(),
        ),
        (encode_bits(bits32(v as int)) + rest).take(encode_bits(bits32(v as int)).len() as int)
            == encode_bits(bits32(v as int)),
        signed32(bits_of(encode_bits(bits32(v as int)))) == v,
{
    let u = bits32(v as int);
    lemma_span_values();
    lemma_encoding_fits(u, 5);
    lemma_frame_encoding(u, rest, 5);
    lemma_bits_of_encoding(u);
    let e = encode_bits(u);
    assert((e + rest).take(e.len() as int) =~= e);
}

/// Every signed 64-bit value comes back from its own encoding, as for 32 bits.
pub proof fn lemma_round_trip_64(v: i64, rest: Seq<u8>)
    ensures
        encode_bits(bits64(v as int)).len() <= 10,
        frame(encode_bits(bits64(v as int)) + rest, 10) == Ok::<nat, VarIntError>(
            encode_bits(bits64(v as int)).len(),
        ),
        (encode_bits(bits64(v as int)) + rest).take(encode_bits(bits64(v as int)).len() as int)
            == encode_bits(bits64(v as int)),
        signed64(bits_of(encode_bits(bits64(v as int)))) == v,
{
    let u = bits64(v as int);
    lemma_span_values();
    lemma_encoding_fits(u, 10);
    lemma_frame_encoding(u, rest, 10);
    lemma_bits_of_encoding(u);
    let e = encode_bits(u);
    assert((e + rest).take(e.len() as int) =~= e);
}

/// Every unsigned 32-bit pattern comes back from the unsigned path: the value
/// written for `u` is read back, through the zigzag mapping, as `u`.
pub proof fn lemma_unsigned_round_trip_32(u: u32, rest: Seq<u8>)
    ensures
        frame(encode_bits(bits32(unzigzag(u as int))) + rest, 5) == Ok::<nat, VarIntError>(
            encode_bits(bits32(unzigzag(u as int))).len(),
        ),
        zigzag(signed32(bits_of(encode_bits(bits32(unzigzag(u as int)))))) == u,
{
    let w = unzigzag(u as int);
    lemma_unzigzag_round_trip(u as nat);
    lemma_round_trip_32(w as i32, rest);
}

/// Every unsigned 64-bit pattern comes back from the unsigned path.
pub proof fn lemma_unsigned_round_trip_64(u: u64, rest: Seq<u8>)
    ensures
        frame(encode_bits(bits64(unzigzag(u as int))) + rest, 10) == Ok::<nat, VarIntError>(
            encode_bits(bits64(unzigzag(u as int))).len(),
        ),
        zigzag(signed64(bits_of(encode_bits(bits64(unzigzag(u as int)))))) == u,
{
    let w = unzigzag(u as int);
    lemma_unzigzag_round_trip(u as nat);
    lemma_round_trip_64(w as i64, rest);
}

/// The encoding of a 32-bit value is as short as it can be: `k` bytes where
/// the value's two's-complement pattern fits in `7k` bits and, for `k > 1`,
/// not in `7(k - 1)`; zero is the single byte 0.
pub proof fn lemma_minimal_32(v: i32)
    ensures
        1 <= encode_bits(bits32(v as int)).len() <= 5,
        bits32(v as int) < span(encode_bits(bits32(v as int)).len()),
        encode_bits(bits32(v as int)).len() == 1 || bits32(v as int) >= span(
            (encode_bits(bits32(v as int)).len() - 1) as nat,
        ),
        v == 0 ==> encode_bits(bits32(v as int)) == seq![0u8],
{
    lemma_span_values();
    lemma_encoding_len(bits32(v as int));
    lemma_encoding_fits(bits32(v as int), 5);
}

/// The encoding of a 64-bit value is as short as it can be, as for 32 bits.
pub proof fn lemma_minimal_64(v: i64)
    ensures
        1 <= encode_bits(bits64(v as int)).len() <= 10,
        bits64(v as int) < span(encode_bits(bits64(v as int)).len()),
        encode_bits(bits64(v as int)).len() == 1 || bits64(v as int) >= span(
            (encode_bits(bits64(v as int)).len() - 1) as nat,
        ),
        v == 0 ==> encode_bits(bits64(v as int)) == seq![0u8],
{
    lemma_span_values();
    lemma_encoding_len(bits64(v as int));
    lemma_encoding_fits(bits64(v as int), 10);
}

} // verus!
