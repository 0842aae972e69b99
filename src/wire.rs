//! The byte-level format: seven-bit groups, least significant first, each
//! byte's high bit set when another byte follows. Spec functions that define
//! it, and the algorithms that both integer widths share.
use vstd::prelude::*;

verus! {

/// Why a stream does not hold a well-formed encoding.
#[derive(Debug, Clone, Copy, PartialEq, Eq, Structural)]
pub enum VarIntError {
    /// The stream ended before a byte with the continuation bit clear.
    UnexpectedEndOfInput,
    /// Every byte allowed for the width carried the continuation bit, and one more byte came.
    EncodingTooLong,
}

/// Largest number of bytes in an encoding of a 32-bit value.
pub const VAR_INT_MAX_BYTES: usize = 5;

/// Largest number of bytes in an encoding of a 64-bit value.
pub const VAR_LONG_MAX_BYTES: usize = 10;

/// `128` to the power `k`: the values that `k` groups can carry.
pub open spec fn span(k: nat) -> nat
    decreases k,
{
    if k == 0 {
        1
    } else {
        128 * span((k - 1) as nat)
    }
}

/// The bit pattern that a sequence of groups carries; continuation bits do not count.
pub open spec fn bits_of(e: Seq<u8>) -> nat
    decreases e.len(),
{
    if e.len() == 0 {
        0
    } else {
        (e[0] % 128) as nat + 128 * bits_of(e.drop_first())
    }
}

/// The shortest encoding of the bit pattern `u`: one byte for each group up to
/// the highest non-zero one, and a single zero byte for zero.
pub open spec fn encode_bits(u: nat) -> Seq<u8>
    decreases u,
{
    if u < 128 {
        seq![u as u8]
    } else {
        seq![(u % 128 + 128) as u8] + encode_bits(u / 128)
    }
}

/// How a decoder that allows at most `max` bytes ends on a stream whose whole
/// content is `s`: `Ok(n)` when the first `n` bytes form a complete encoding.
/// A byte is read before the length is checked, so the error for too many
/// bytes comes only once byte `max + 1` has arrived.
pub open spec fn frame(s: Seq<u8>, max: nat) -> Result<nat, VarIntError>
    decreases s.len(),
{
    if s.len() == 0 {
        Err(VarIntError::UnexpectedEndOfInput)
    } else if max == 0 {
        Err(VarIntError::EncodingTooLong)
    } else if s[0] < 128 {
        Ok(1)
    } else {
        match frame(s.drop_first(), (max - 1) as nat) {
            Ok(n) => Ok(n + 1),
            Err(e) => Err(e),
        }
    }
}

/// How many bytes that decoder takes from the stream `s`, whatever the outcome.
pub open spec fn consumed(s: Seq<u8>, max: nat) -> nat {
    match frame(s, max) {
        Ok(n) => n,
        Err(VarIntError::UnexpectedEndOfInput) => s.len(),
        Err(VarIntError::EncodingTooLong) => max + 1,
    }
}

/// The encoding `e` stored in `cap` slots, the unused ones zero.
pub open spec fn slots_of(e: Seq<u8>, cap: nat) -> Seq<u8> {
    e + Seq::new((cap - e.len()) as nat, |_i: int| 0u8)
}

/// `cap` slots that hold one complete encoding followed by zeros.
pub open spec fn well_formed_slots(s: Seq<u8>, cap: nat) -> bool {
    &&& s.len() == cap
    &&& frame(s, cap) is Ok
    &&& forall|j: int| frame(s, cap)->Ok_0 <= j < cap ==> s[j] == 0
}

/// The encoding held by well-formed slots.
pub open spec fn stored_encoding(s: Seq<u8>, cap: nat) -> Seq<u8> {
    s.take(frame(s, cap)->Ok_0 as int)
}

/// Unsigned 32-bit pattern of a signed value (two's complement).
pub open spec fn bits32(v: int) -> nat {
    if v < 0 {
        (v + 0x1_0000_0000) as nat
    } else {
        v as nat
    }
}

/// Unsigned 64-bit pattern of a signed value (two's complement).
pub open spec fn bits64(v: int) -> nat {
    if v < 0 {
        (v + 0x1_0000_0000_0000_0000) as nat
    } else {
        v as nat
    }
}

/// The signed 32-bit value whose pattern is the low 32 bits of `u`.
pub open spec fn signed32(u: nat) -> int {
    let m = (u % 0x1_0000_0000) as int;
    if m < 0x8000_0000 {
        m
    } else {
        m - 0x1_0000_0000
    }
}

/// The signed 64-bit value whose pattern is the low 64 bits of `u`.
pub open spec fn signed64(u: nat) -> int {
    let m = (u % 0x1_0000_0000_0000_0000) as int;
    if m < 0x8000_0000_0000_0000 {
        m
    } else {
        m - 0x1_0000_0000_0000_0000
    }
}

/// Skipping `i` leading continuation bytes shifts the outcome of decoding by `i`.
pub proof fn lemma_frame_skip(s: Seq<u8>, max: nat, i: int)
    requires
        0 <= i <= s.len(),
        i <= max,
        forall|j: int| 0 <= j < i ==> s[j] >= 128,
    ensures
        frame(s, max) == (match frame(s.skip(i), (max - i) as nat) {
            Ok(n) => Ok((n + i) as nat),
            Err(e) => Err(e),
        }),
    decreases i,
{
    if i == 0 {
        assert(s.skip(0) =~= s);
    } else {
        let t = s.drop_first();
        lemma_frame_skip(t, (max - 1) as nat, i - 1);
        assert(t.skip(i - 1) =~= s.skip(i));
    }
}

/// A complete encoding lies within the stream and within the limit, and the
/// error for too many bytes needs one byte past the limit.
pub proof fn lemma_frame_bounds(s: Seq<u8>, max: nat)
    ensures
        frame(s, max) matches Ok(n) ==> 1 <= n <= max && n <= s.len(),
        frame(s, max) == Err::<nat, VarIntError>(VarIntError::EncodingTooLong) ==> s.len() > max,
    decreases s.len(),
{
    if s.len() > 0 && max > 0 && s[0] >= 128 {
        lemma_frame_bounds(s.drop_first(), (max - 1) as nat);
    }
}

/// Well-formed slots are determined by the encoding they hold.
pub proof fn lemma_slots_determined(a: Seq<u8>, b: Seq<u8>, cap: nat)
    requires
        well_formed_slots(a, cap),
        well_formed_slots(b, cap),
    ensures
        a == b <==> stored_encoding(a, cap) == stored_encoding(b, cap),
{
    if stored_encoding(a, cap) == stored_encoding(b, cap) {
        lemma_frame_bounds(a, cap);
        lemma_frame_bounds(b, cap);
        let n = frame(a, cap)->Ok_0;
        assert(stored_encoding(a, cap).len() == n);
        assert forall|j: int| 0 <= j < cap implies a[j] == b[j] by {
            if j < n {
                assert(a[j] == stored_encoding(a, cap)[j]);
                assert(b[j] == stored_encoding(b, cap)[j]);
            }
        }
        assert(a =~= b);
    }
}

/// The bytes after a complete encoding do not change how it decodes.
pub proof fn lemma_frame_prefix(s: Seq<u8>, rest: Seq<u8>, max: nat)
    requires
        frame(s, max) is Ok,
    ensures
        frame(s.take(frame(s, max)->Ok_0 as int) + rest, max) == frame(s, max),
    decreases s.len(),
{
    let n = frame(s, max)->Ok_0;
    lemma_frame_bounds(s, max);
    let t = s.take(n as int) + rest;
    assert(t[0] == s[0]);
    if s[0] >= 128 {
        let d = s.drop_first();
        lemma_frame_prefix(d, rest, (max - 1) as nat);
        assert(t.drop_first() =~= d.take(n - 1) + rest);
    }
}

/// An encoding, whatever follows it, decodes to exactly its own length.
pub proof fn lemma_frame_encoding(u: nat, rest: Seq<u8>, max: nat)
    requires
        encode_bits(u).len() <= max,
    ensures
        frame(encode_bits(u) + rest, max) == Ok::<nat, VarIntError>(encode_bits(u).len()),
    decreases u,
{
    let s = encode_bits(u) + rest;
    if u >= 128 {
        assert(s.drop_first() =~= encode_bits(u / 128) + rest);
        lemma_frame_encoding(u / 128, rest, (max - 1) as nat);
    }
}

/// The groups of the shortest encoding carry the pattern back.
pub proof fn lemma_bits_of_encoding(u: nat)
    ensures
        bits_of(encode_bits(u)) == u,
    decreases u,
{
    if u >= 128 {
        let e = encode_bits(u);
        assert(e.drop_first() =~= encode_bits(u / 128));
        assert(e[0] % 128 == u % 128);
        lemma_bits_of_encoding(u / 128);
    } else {
        let e = encode_bits(u);
        assert(e.drop_first() =~= Seq::<u8>::empty());
        assert(bits_of(e.drop_first()) == 0);
    }
}

/// The shortest encoding of `u` has exactly `k` bytes when `u` needs `k` groups:
/// it fits in `7k` bits, and (above one byte) not in `7(k - 1)`.
pub proof fn lemma_encoding_len(u: nat)
    ensures
        encode_bits(u).len() >= 1,
        u < span(encode_bits(u).len()),
        encode_bits(u).len() == 1 || u >= span((encode_bits(u).len() - 1) as nat),
    decreases u,
{
    if u >= 128 {
        lemma_encoding_len(u / 128);
        let k = encode_bits(u / 128).len();
        assert(encode_bits(u).len() == k + 1);
        assert(span(k + 1) == 128 * span(k));
        if k > 1 {
            assert(span(k) == 128 * span((k - 1) as nat));
        }
    } else {
        assert(span(1) == 128 * span(0));
    }
}

/// The spans of the two widths' largest encodings.
pub proof fn lemma_span_values()
    ensures
        span(5) == 0x8_0000_0000,
        span(10) == 0x40_0000_0000_0000_0000,
{
    assert(span(0) == 1);
    assert(span(1) == 0x80);
    assert(span(2) == 0x4000);
    assert(span(3) == 0x20_0000);
    assert(span(4) == 0x1000_0000);
    assert(span(5) == 0x8_0000_0000);
    assert(span(6) == 0x400_0000_0000);
    assert(span(7) == 0x2_0000_0000_0000);
    assert(span(8) == 0x100_0000_0000_0000);
    assert(span(9) == 0x8000_0000_0000_0000);
    assert(span(10) == 0x40_0000_0000_0000_0000);
}

/// `span` grows with its argument.
pub proof fn lemma_span_monotone(a: nat, b: nat)
    requires
        a <= b,
    ensures
        span(a) <= span(b),
    decreases b,
{
    if a < b {
        lemma_span_monotone(a, (b - 1) as nat);
    }
}

/// The shortest encoding of a value below `span(k)` has at most `k` bytes.
pub proof fn lemma_encoding_fits(u: nat, k: nat)
    requires
        k >= 1,
        u < span(k),
    ensures
        encode_bits(u).len() <= k,
{
    lemma_encoding_len(u);
    let n = encode_bits(u).len();
    if n > k {
        lemma_span_monotone(k, (n - 1) as nat);
    }
}

/// Decides how a stream that holds exactly the bytes of `s` decodes, with at
/// most `max` bytes allowed; returns the length of the encoding it starts with.
pub fn scan_frame(s: &[u8], max: usize) -> (r: Result<usize, VarIntError>)
    ensures
        match r {
            Ok(n) => frame(s@, max as nat) == Ok::<nat, VarIntError>(n as nat),
            Err(e) => frame(s@, max as nat) == Err::<nat, VarIntError>(e),
        },
{
    let mut i: usize = 0;
    loop
        invariant
            i <= s@.len(),
            i <= max,
            forall|j: int| 0 <= j < i ==> s@[j] >= 128,
        decreases s@.len() - i,
    {
        proof {
            lemma_frame_skip(s@, max as nat, i as int);
        }
        if i == s.len() {
            assert(s@.skip(i as int).len() == 0);
            return Err(VarIntError::UnexpectedEndOfInput);
        }
        if i == max {
            return Err(VarIntError::EncodingTooLong);
        }
        if s[i] < 0x80 {
            assert(s@.skip(i as int)[0] == s@[i as int]);
            return Ok(i + 1);
        }
        i += 1;
    }
}

/// The bit pattern carried by the first `len` bytes of `e`.
pub(crate) fn groups_value(e: &[u8], len: usize) -> (r: u128)
    requires
        len <= e@.len(),
        len <= VAR_LONG_MAX_BYTES,
    ensures
        r == bits_of(e@.take(len as int)),
{
    let ghost g = e@.take(len as int);
    proof {
        lemma_span_values();
    }
    let mut acc: u128 = 0;
    let mut i: usize = len;
    assert(g.skip(len as int) =~= Seq::<u8>::empty());
    while i > 0
        invariant
            i <= len <= VAR_LONG_MAX_BYTES,
            len <= e@.len(),
            g == e@.take(len as int),
            acc == bits_of(g.skip(i as int)),
            acc < span((len - i) as nat),
            span(10) == 0x40_0000_0000_0000_0000,
        decreases i,
    {
        i -= 1;
        let ghost t = g.skip(i as int);
        assert(t.drop_first() =~= g.skip(i + 1));
        assert(t[0] == e@[i as int]);
        proof {
            lemma_span_monotone((len - i) as nat, 10);
        }
        assert(span((len - i) as nat) == 128 * span((len - i - 1) as nat));
        acc = acc * 128 + (e[i] % 128) as u128;
    }
    assert(g.skip(0) =~= g);
    acc
}

/// The shortest encoding of `bits`, stored in `N` slots with the unused ones zero.
pub(crate) fn encode_slots<const N: usize>(bits: u64) -> (r: [u8; N])
    requires
        encode_bits(bits as nat).len() <= N,
    ensures
        r@ == slots_of(encode_bits(bits as nat), N as nat),
{
    let ghost whole = encode_bits(bits as nat);
    let mut out = [0u8; N];
    let mut n: u64 = bits;
    let mut i: usize = 0;
    loop
        invariant
            out@.len() == N,
            i + encode_bits(n as nat).len() == whole.len(),
            whole == encode_bits(bits as nat),
            whole.len() <= N,
            out@.take(i as int) + encode_bits(n as nat) == whole,
            forall|j: int| i <= j < N ==> out@[j] == 0,
        decreases N - i,
    {
        proof {
            lemma_encoding_len(n as nat);
        }
        let ghost m = n;
        let low = (n % 128) as u8;
        n = n / 128;
        if n == 0 {
            assert(encode_bits(m as nat) == seq![low]);
            out[i] = low;
            assert(out@.take(i + 1) =~= whole);
            assert(out@ =~= slots_of(whole, N as nat));
            return out;
        }
        out[i] = low + 0x80;
        assert(out@.take(i + 1) + encode_bits(n as nat) =~= whole);
        i += 1;
    }
}

/// The first `len` bytes of `src`, stored in `N` slots with the rest zero.
pub(crate) fn copy_slots<const N: usize>(src: &[u8], len: usize) -> (r: [u8; N])
    requires
        len <= src@.len(),
        len <= N,
    ensures
        r@ == slots_of(src@.take(len as int), N as nat),
{
    let mut r = [0u8; N];
    let mut i: usize = 0;
    while i < len
        invariant
            i <= len <= N,
            len <= src@.len(),
            r@.len() == N,
            forall|j: int| 0 <= j < i ==> r@[j] == src@[j],
            forall|j: int| i <= j < N ==> r@[j] == 0,
        decreases len - i,
    {
        r[i] = src[i];
        i += 1;
    }
    assert(r@ =~= slots_of(src@.take(len as int), N as nat));
    r
}

/// Reads one encoding of at most `N` bytes from the front of `src` into `N`
/// slots, and leaves `src` just past the bytes it took.
pub(crate) fn read_slots<const N: usize>(src: &mut &[u8]) -> (r: Result<[u8; N], VarIntError>)
    ensures
        match frame(old(src)@, N as nat) {
            Ok(n) => r == Ok::<[u8; N], VarIntError>(r->Ok_0) && r->Ok_0@ == slots_of(
                old(src)@.take(n as int),
                N as nat,
            ),
            Err(e) => r == Err::<[u8; N], VarIntError>(e),
        },
        final(src)@ == old(src)@.skip(consumed(old(src)@, N as nat) as int),
{
    let s: &[u8] = *src;
    proof {
        lemma_frame_bounds(s@, N as nat);
    }
    match scan_frame(s, N) {
        Ok(n) => {
            let slots = copy_slots::<N>(s, n);
            *src = s.split_at(n).1;
            assert(src@ =~= s@.skip(n as int));
            Ok(slots)
        },
        Err(e) => {
            let used = match e {
                VarIntError::UnexpectedEndOfInput => s.len(),
                VarIntError::EncodingTooLong => {
                    assert(frame(s@, N as nat) == Err::<nat, VarIntError>(e));
                    assert(e == VarIntError::EncodingTooLong);
                    assert(s.len() > N);
                    N + 1
                },
            };
            *src = s.split_at(used).1;
            assert(src@ =~= s@.skip(used as int));
            Err(e)
        },
    }
}

/// The unsigned 32-bit pattern of `v`.
pub(crate) fn pattern_32(v: i32) -> (r: u64)
    ensures
        r == bits32(v as int),
{
    let u = v as u32;
    assert(v < 0 ==> u == v + 0x1_0000_0000) by (bit_vector)
        requires
            u == v as u32,
    ;
    assert(v >= 0 ==> u == v) by (bit_vector)
        requires
            u == v as u32,
    ;
    u as u64
}

/// The unsigned 64-bit pattern of `v`.
pub(crate) fn pattern_64(v: i64) -> (r: u64)
    ensures
        r == bits64(v as int),
{
    let u = v as u64;
    assert(v < 0 ==> u == v + 0x1_0000_0000_0000_0000) by (bit_vector)
        requires
            u == v as u64,
    ;
    assert(v >= 0 ==> u == v) by (bit_vector)
        requires
            u == v as u64,
    ;
    u
}

/// The signed 32-bit value whose pattern is the low 32 bits of `bits`.
pub(crate) fn signed_32(bits: u128) -> (r: i32)
    ensures
        r == signed32(bits as nat),
{
    let low = (bits % 0x1_0000_0000) as u32;
    let r = low as i32;
    assert(low < 0x8000_0000 ==> r == low) by (bit_vector)
        requires
            r == low as i32,
    ;
    assert(low >= 0x8000_0000 ==> r == low - 0x1_0000_0000) by (bit_vector)
        requires
            r == low as i32,
    ;
    r
}

/// The signed 64-bit value whose pattern is the low 64 bits of `bits`.
pub(crate) fn signed_64(bits: u128) -> (r: i64)
    ensures
        r == signed64(bits as nat),
{
    let low = (bits % 0x1_0000_0000_0000_0000) as u64;
    let r = low as i64;
    assert(low < 0x8000_0000_0000_0000 ==> r == low) by (bit_vector)
        requires
            r == low as i64,
    ;
    assert(low >= 0x8000_0000_0000_0000 ==> r == low - 0x1_0000_0000_0000_0000) by (bit_vector)
        requires
            r == low as i64,
    ;
    r
}

/// Appends the first `len` bytes of `src` to `out`.
pub(crate) fn append_prefix(out: &mut Vec<u8>, src: &[u8], len: usize)
    requires
        len <= src@.len(),
    ensures
        final(out)@ == old(out)@ + src@.take(len as int),
{
    let mut i: usize = 0;
    while i < len
        invariant
            i <= len <= src@.len(),
            out@ == old(out)@ + src@.take(i as int),
        decreases len - i,
    {
        out.push(src[i]);
        assert(src@.take(i + 1) =~= src@.take(i as int).push(src@[i as int]));
        i += 1;
    }
}

} // verus!
