//! The bounded representations of encoded values and their conversions from
//! and to integers.
use vstd::prelude::*;

use crate::wire::{
    append_prefix, bits32, bits64, bits_of, consumed, encode_bits, encode_slots, frame,
    groups_value, lemma_encoding_fits, lemma_frame_bounds, lemma_frame_encoding,
    lemma_frame_prefix, lemma_slots_determined, lemma_span_values, pattern_32, pattern_64,
    read_slots, scan_frame, signed32, signed64, signed_32, signed_64, slots_of, stored_encoding,
    well_formed_slots, VarIntError, VAR_INT_MAX_BYTES, VAR_LONG_MAX_BYTES,
};

use crate::zigzag::{
    unzigzag, zigzag, zigzag_decode_32, zigzag_decode_64, zigzag_encode_32, zigzag_encode_64,
};

verus! {

/// A 32-bit value in encoded form: five byte slots that hold one complete
/// encoding followed by zeros.
#[derive(Debug, Eq)]
pub struct VarInt {
    inner: [u8; 5],
}

impl VarInt {
    #[verifier::type_invariant]
    spec fn slots_valid(self) -> bool {
        well_formed_slots(self.inner@, 5)
    }

    /// Number of bytes in the stored encoding.
    pub fn len(&self) -> (r: usize)
        ensures
            r == self@.len(),
            1 <= r <= VAR_INT_MAX_BYTES,
    {
        proof {
            use_type_invariant(self);
            lemma_frame_bounds(self.inner@, 5);
        }
        match scan_frame(self.inner.as_slice(), VAR_INT_MAX_BYTES) {
            Ok(n) => n,
            Err(_) => 0,
        }
    }
}

impl View for VarInt {
    type V = Seq<u8>;

    /// The stored encoding, without the unused slots.
    closed spec fn view(&self) -> Seq<u8> {
        stored_encoding(self.inner@, 5)
    }
}

impl PartialEq for VarInt {
    /// Two representations are equal when they hold the same encoding.
    fn eq(&self, other: &VarInt) -> (r: bool) {
        let mut i: usize = 0;
        while i < VAR_INT_MAX_BYTES
            invariant
                i <= 5,
                forall|j: int| 0 <= j < i ==> self.inner@[j] == other.inner@[j],
            decreases 5 - i,
        {
            if self.inner[i] != other.inner[i] {
                proof {
                    use_type_invariant(self);
                    use_type_invariant(other);
                    lemma_slots_determined(self.inner@, other.inner@, 5);
                    assert(self.inner@[i as int] != other.inner@[i as int]);
                }
                return false;
            }
            i += 1;
        }
        assert(self.inner@ =~= other.inner@);
        proof {
            use_type_invariant(self);
            use_type_invariant(other);
            lemma_slots_determined(self.inner@, other.inner@, 5);
        }
        true
    }
}

impl vstd::std_specs::cmp::PartialEqSpecImpl for VarInt {
    open spec fn obeys_eq_spec() -> bool {
        true
    }

    open spec fn eq_spec(&self, other: &VarInt) -> bool {
        self@ == other@
    }
}

impl Default for VarInt {
    /// The encoding of zero: a single zero byte.
    fn default() -> (r: Self)
        ensures
            r@ == seq![0u8],
    {
        let r = VarInt { inner: [0u8; 5] };
        assert(r.inner@ =~= slots_of(encode_bits(0), 5));
        proof {
            lemma_frame_encoding(0, Seq::new(4, |_i: int| 0u8), 5);
        }
        r
    }
}

impl From<i32> for VarInt {
    /// Stores the shortest encoding of `n`'s 32-bit pattern.
    fn from(n: i32) -> (r: Self)
        ensures
            r@ == encode_bits(bits32(n as int)),
    {
        let bits = pattern_32(n);
        proof {
            lemma_span_values();
            lemma_encoding_fits(bits as nat, 5);
        }
        let inner = encode_slots::<5>(bits);
        proof {
            let e = encode_bits(bits as nat);
            lemma_frame_encoding(bits as nat, Seq::new((5 - e.len()) as nat, |_i: int| 0u8), 5);
            assert(inner@.take(e.len() as int) =~= e);
            let c = choose|s: [u8; 5]| s@ == slots_of(e, 5);
            assert(c@ == inner@);
            assert(c == inner);
        }
        VarInt { inner }
    }
}

impl vstd::std_specs::convert::FromSpecImpl<i32> for VarInt {
    open spec fn obeys_from_spec() -> bool {
        true
    }

    closed spec fn from_spec(n: i32) -> VarInt {
        VarInt { inner: choose|s: [u8; 5]| s@ == slots_of(encode_bits(bits32(n as int)), 5) }
    }
}

impl From<VarInt> for i32 {
    /// The value whose 32-bit pattern the stored groups carry.
    fn from(v: VarInt) -> (r: i32)
        ensures
            r == signed32(bits_of(v@)),
    {
        let len = v.len();
        let bits = groups_value(v.inner.as_slice(), len);
        proof {
            use_type_invariant(&v);
            lemma_frame_bounds(v.inner@, 5);
            assert(v.inner@.take(len as int) =~= v@);
        }
        signed_32(bits)
    }
}

impl vstd::std_specs::convert::FromSpecImpl<VarInt> for i32 {
    open spec fn obeys_from_spec() -> bool {
        true
    }

    open spec fn from_spec(v: VarInt) -> i32 {
        signed32(bits_of(v@)) as i32
    }
}

/// A 64-bit value in encoded form: ten byte slots that hold one complete
/// encoding followed by zeros.
#[derive(Debug, Eq)]
pub struct VarLong {
    inner: [u8; 10],
}

impl VarLong {
    #[verifier::type_invariant]
    spec fn slots_valid(self) -> bool {
        well_formed_slots(self.inner@, 10)
    }

    /// Number of bytes in the stored encoding.
    pub fn len(&self) -> (r: usize)
        ensures
            r == self@.len(),
            1 <= r <= VAR_LONG_MAX_BYTES,
    {
        proof {
            use_type_invariant(self);
            lemma_frame_bounds(self.inner@, 10);
        }
        match scan_frame(self.inner.as_slice(), VAR_LONG_MAX_BYTES) {
            Ok(n) => n,
            Err(_) => 0,
        }
    }
}

impl View for VarLong {
    type V = Seq<u8>;

    /// The stored encoding, without the unused slots.
    closed spec fn view(&self) -> Seq<u8> {
        stored_encoding(self.inner@, 10)
    }
}

impl PartialEq for VarLong {
    /// Two representations are equal when they hold the same encoding.
    fn eq(&self, other: &VarLong) -> (r: bool) {
        let mut i: usize = 0;
        while i < VAR_LONG_MAX_BYTES
            invariant
                i <= 10,
                forall|j: int| 0 <= j < i ==> self.inner@[j] == other.inner@[j],
            decreases 10 - i,
        {
            if self.inner[i] != other.inner[i] {
                proof {
                    use_type_invariant(self);
                    use_type_invariant(other);
                    lemma_slots_determined(self.inner@, other.inner@, 10);
                    assert(self.inner@[i as int] != other.inner@[i as int]);
                }
                return false;
            }
            i += 1;
        }
        assert(self.inner@ =~= other.inner@);
        proof {
            use_type_invariant(self);
            use_type_invariant(other);
            lemma_slots_determined(self.inner@, other.inner@, 10);
        }
        true
    }
}

impl vstd::std_specs::cmp::PartialEqSpecImpl for VarLong {
    open spec fn obeys_eq_spec() -> bool {
        true
    }

    open spec fn eq_spec(&self, other: &VarLong) -> bool {
        self@ == other@
    }
}

impl Default for VarLong {
    /// The encoding of zero: a single zero byte.
    fn default() -> (r: Self)
        ensures
            r@ == seq![0u8],
    {
        let r = VarLong { inner: [0u8; 10] };
        assert(r.inner@ =~= slots_of(encode_bits(0), 10));
        proof {
            lemma_frame_encoding(0, Seq::new(9, |_i: int| 0u8), 10);
        }
        r
    }
}

impl From<i64> for VarLong {
    /// Stores the shortest encoding of `n`'s 64-bit pattern.
    fn from(n: i64) -> (r: Self)
        ensures
            r@ == encode_bits(bits64(n as int)),
    {
        let bits = pattern_64(n);
        proof {
            lemma_span_values();
            lemma_encoding_fits(bits as nat, 10);
        }
        let inner = encode_slots::<10>(bits);
        proof {
            let e = encode_bits(bits as nat);
            lemma_frame_encoding(bits as nat, Seq::new((10 - e.len()) as nat, |_i: int| 0u8), 10);
            assert(inner@.take(e.len() as int) =~= e);
            let c = choose|s: [u8; 10]| s@ == slots_of(e, 10);
            assert(c@ == inner@);
            assert(c == inner);
        }
        VarLong { inner }
    }
}

impl vstd::std_specs::convert::FromSpecImpl<i64> for VarLong {
    open spec fn obeys_from_spec() -> bool {
        true
    }

    closed spec fn from_spec(n: i64) -> VarLong {
        VarLong { inner: choose|s: [u8; 10]| s@ == slots_of(encode_bits(bits64(n as int)), 10) }
    }
}

impl From<VarLong> for i64 {
    /// The value whose 64-bit pattern the stored groups carry.
    fn from(v: VarLong) -> (r: i64)
        ensures
            r == signed64(bits_of(v@)),
    {
        let len = v.len();
        let bits = groups_value(v.inner.as_slice(), len);
        proof {
            use_type_invariant(&v);
            lemma_frame_bounds(v.inner@, 10);
            assert(v.inner@.take(len as int) =~= v@);
        }
        signed_64(bits)
    }
}

impl vstd::std_specs::convert::FromSpecImpl<VarLong> for i64 {
    open spec fn obeys_from_spec() -> bool {
        true
    }

    open spec fn from_spec(v: VarLong) -> i64 {
        signed64(bits_of(v@)) as i64
    }
}

/// Reads encoded values from the front of a byte source.
pub trait VarIntRead {
    /// Reads one encoding of a 32-bit value and keeps it in encoded form.
    fn read_var_int(&mut self) -> Result<VarInt, VarIntError>;

    /// Reads one encoding of a 64-bit value and keeps it in encoded form.
    fn read_var_long(&mut self) -> Result<VarLong, VarIntError>;

    /// Reads one encoding of a signed 32-bit value.
    fn read_var_i32(&mut self) -> Result<i32, VarIntError>;

    /// Reads one encoding of a signed 64-bit value.
    fn read_var_i64(&mut self) -> Result<i64, VarIntError>;

    /// Reads a signed 32-bit encoding and returns its zigzag pattern.
    fn read_var_u32(&mut self) -> Result<u32, VarIntError>;

    /// Reads a signed 64-bit encoding and returns its zigzag pattern.
    fn read_var_u64(&mut self) -> Result<u64, VarIntError>;
}

/// Writes encoded values to the end of a byte sink.
pub trait VarIntWrite {
    /// Writes the encoding that `n` holds; returns the number of bytes written.
    fn write_var_int(&mut self, n: VarInt) -> usize;

    /// Writes the encoding that `n` holds; returns the number of bytes written.
    fn write_var_long(&mut self, n: VarLong) -> usize;

    /// Writes the shortest encoding of a signed 32-bit value.
    fn write_var_i32(&mut self, value: i32) -> usize;

    /// Writes the shortest encoding of a signed 64-bit value.
    fn write_var_i64(&mut self, value: i64) -> usize;

    /// Writes the signed 32-bit value whose zigzag pattern is `value`.
    fn write_var_u32(&mut self, value: u32) -> usize;

    /// Writes the signed 64-bit value whose zigzag pattern is `value`.
    fn write_var_u64(&mut self, value: u64) -> usize;
}

/// A byte slice is read from its front; each read leaves it just past the
/// bytes taken, also when the read fails.
impl<'a> VarIntRead for &'a [u8] {
    fn read_var_int(&mut self) -> (r: Result<VarInt, VarIntError>)
        ensures
            match frame(old(self)@, 5) {
                Ok(n) => r matches Ok(v) && v@ == old(self)@.take(n as int),
                Err(e) => r == Err::<VarInt, VarIntError>(e),
            },
            final(self)@ == old(self)@.skip(consumed(old(self)@, 5) as int),
    {
        let ghost s = self@;
        match read_slots::<5>(self) {
            Ok(inner) => {
                proof {
                    let n = frame(s, 5)->Ok_0;
                    lemma_frame_bounds(s, 5);
                    let e = s.take(n as int);
                    let zeros = Seq::new((5 - n) as nat, |_i: int| 0u8);
                    lemma_frame_prefix(s, zeros, 5);
                    assert(inner@.take(n as int) =~= e);
                }
                Ok(VarInt { inner })
            },
            Err(e) => Err(e),
        }
    }

    fn read_var_long(&mut self) -> (r: Result<VarLong, VarIntError>)
        ensures
            match frame(old(self)@, 10) {
                Ok(n) => r matches Ok(v) && v@ == old(self)@.take(n as int),
                Err(e) => r == Err::<VarLong, VarIntError>(e),
            },
            final(self)@ == old(self)@.skip(consumed(old(self)@, 10) as int),
    {
        let ghost s = self@;
        match read_slots::<10>(self) {
            Ok(inner) => {
                proof {
                    let n = frame(s, 10)->Ok_0;
                    lemma_frame_bounds(s, 10);
                    let e = s.take(n as int);
                    let zeros = Seq::new((10 - n) as nat, |_i: int| 0u8);
                    lemma_frame_prefix(s, zeros, 10);
                    assert(inner@.take(n as int) =~= e);
                }
                Ok(VarLong { inner })
            },
            Err(e) => Err(e),
        }
    }

    fn read_var_i32(&mut self) -> (r: Result<i32, VarIntError>)
        ensures
            match frame(old(self)@, 5) {
                Ok(n) => r == Ok::<i32, VarIntError>(
                    signed32(bits_of(old(self)@.take(n as int))) as i32,
                ),
                Err(e) => r == Err::<i32, VarIntError>(e),
            },
            final(self)@ == old(self)@.skip(consumed(old(self)@, 5) as int),
    {
        match self.read_var_int() {
            Ok(v) => Ok(i32::from(v)),
            Err(e) => Err(e),
        }
    }

    fn read_var_i64(&mut self) -> (r: Result<i64, VarIntError>)
        ensures
            match frame(old(self)@, 10) {
                Ok(n) => r == Ok::<i64, VarIntError>(
                    signed64(bits_of(old(self)@.take(n as int))) as i64,
                ),
                Err(e) => r == Err::<i64, VarIntError>(e),
            },
            final(self)@ == old(self)@.skip(consumed(old(self)@, 10) as int),
    {
        match self.read_var_long() {
            Ok(v) => Ok(i64::from(v)),
            Err(e) => Err(e),
        }
    }

    fn read_var_u32(&mut self) -> (r: Result<u32, VarIntError>)
        ensures
            match frame(old(self)@, 5) {
                Ok(n) => r == Ok::<u32, VarIntError>(
                    zigzag(signed32(bits_of(old(self)@.take(n as int)))) as u32,
                ),
                Err(e) => r == Err::<u32, VarIntError>(e),
            },
            final(self)@ == old(self)@.skip(consumed(old(self)@, 5) as int),
    {
        match self.read_var_i32() {
            Ok(v) => Ok(zigzag_encode_32(v)),
            Err(e) => Err(e),
        }
    }

    fn read_var_u64(&mut self) -> (r: Result<u64, VarIntError>)
        ensures
            match frame(old(self)@, 10) {
                Ok(n) => r == Ok::<u64, VarIntError>(
                    zigzag(signed64(bits_of(old(self)@.take(n as int)))) as u64,
                ),
                Err(e) => r == Err::<u64, VarIntError>(e),
            },
            final(self)@ == old(self)@.skip(consumed(old(self)@, 10) as int),
    {
        match self.read_var_i64() {
            Ok(v) => Ok(zigzag_encode_64(v)),
            Err(e) => Err(e),
        }
    }
}

/// A vector of bytes is written at its end; writing to it cannot fail.
impl VarIntWrite for Vec<u8> {
    fn write_var_int(&mut self, n: VarInt) -> (r: usize)
        ensures
            final(self)@ == old(self)@ + n@,
            r == n@.len(),
    {
        let len = n.len();
        proof {
            use_type_invariant(&n);
            lemma_frame_bounds(n.inner@, 5);
        }
        append_prefix(self, n.inner.as_slice(), len);
        len
    }

    fn write_var_long(&mut self, n: VarLong) -> (r: usize)
        ensures
            final(self)@ == old(self)@ + n@,
            r == n@.len(),
    {
        let len = n.len();
        proof {
            use_type_invariant(&n);
            lemma_frame_bounds(n.inner@, 10);
        }
        append_prefix(self, n.inner.as_slice(), len);
        len
    }

    fn write_var_i32(&mut self, value: i32) -> (r: usize)
        ensures
            final(self)@ == old(self)@ + encode_bits(bits32(value as int)),
            r == encode_bits(bits32(value as int)).len(),
    {
        self.write_var_int(VarInt::from(value))
    }

    fn write_var_i64(&mut self, value: i64) -> (r: usize)
        ensures
            final(self)@ == old(self)@ + encode_bits(bits64(value as int)),
            r == encode_bits(bits64(value as int)).len(),
    {
        self.write_var_long(VarLong::from(value))
    }

    fn write_var_u32(&mut self, value: u32) -> (r: usize)
        ensures
            final(self)@ == old(self)@ + encode_bits(bits32(unzigzag(value as int))),
            r == encode_bits(bits32(unzigzag(value as int))).len(),
    {
        self.write_var_i32(zigzag_decode_32(value))
    }

    fn write_var_u64(&mut self, value: u64) -> (r: usize)
        ensures
            final(self)@ == old(self)@ + encode_bits(bits64(unzigzag(value as int))),
            r == encode_bits(bits64(unzigzag(value as int))).len(),
    {
        self.write_var_i64(zigzag_decode_64(value))
    }
}

} // verus!
