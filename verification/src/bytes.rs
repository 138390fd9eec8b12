//! Big-endian integers and fixed-width arithmetic, first as mathematics, then as code.

use vstd::prelude::*;
use vstd::slice::slice_subrange;

verus! {

/// The 32-bit two's complement integer congruent to `x`.
pub open spec fn wrap32(x: int) -> i32 {
    ((x + 0x8000_0000) % 0x1_0000_0000 - 0x8000_0000) as i32
}

/// The 16-bit two's complement integer congruent to `x`.
pub open spec fn wrap16(x: int) -> i16 {
    ((x + 0x8000) % 0x1_0000 - 0x8000) as i16
}

/// The 16-bit big-endian number at `i`.
pub open spec fn be16(s: Seq<u8>, i: int) -> int {
    s[i] * 0x100 + s[i + 1]
}

/// The 32-bit big-endian number at `i`.
pub open spec fn be32(s: Seq<u8>, i: int) -> int {
    s[i] * 0x100_0000 + s[i + 1] * 0x1_0000 + s[i + 2] * 0x100 + s[i + 3]
}

/// The low 16 bits of `v`, big-endian.
#[verifier::opaque]
pub open spec fn enc16(v: int) -> Seq<u8> {
    seq![(v / 0x100 % 0x100) as u8, (v % 0x100) as u8]
}

/// The low 24 bits of `v`, big-endian.
#[verifier::opaque]
pub open spec fn enc24(v: int) -> Seq<u8> {
    seq![(v / 0x1_0000 % 0x100) as u8, (v / 0x100 % 0x100) as u8, (v % 0x100) as u8]
}

/// The low 32 bits of `v`, big-endian.
#[verifier::opaque]
pub open spec fn enc32(v: int) -> Seq<u8> {
    seq![
        (v / 0x100_0000 % 0x100) as u8,
        (v / 0x1_0000 % 0x100) as u8,
        (v / 0x100 % 0x100) as u8,
        (v % 0x100) as u8,
    ]
}

/// `s` with the bytes from `i` on overwritten by `b`.
pub open spec fn splice(s: Seq<u8>, i: int, b: Seq<u8>) -> Seq<u8> {
    Seq::new(s.len(), |k: int| if i <= k < i + b.len() { b[k - i] } else { s[k] })
}

/// `n` zero bytes.
pub open spec fn zeros(n: nat) -> Seq<u8> {
    Seq::new(n, |k: int| 0u8)
}

/// `n` rounded up to a multiple of four.
pub open spec fn pad4(n: int) -> int {
    (n + 3) / 4 * 4
}

/// `data` with zero bytes up to a multiple of four.
pub open spec fn padded(data: Seq<u8>) -> Seq<u8> {
    data + zeros((pad4(data.len() as int) - data.len()) as nat)
}

/// A 16-bit number takes two bytes.
pub broadcast proof fn lemma_enc16_len(v: int)
    ensures
        (#[trigger] enc16(v)).len() == 2,
{
    reveal(enc16);
}

/// A 24-bit number takes three bytes.
pub broadcast proof fn lemma_enc24_len(v: int)
    ensures
        (#[trigger] enc24(v)).len() == 3,
{
    reveal(enc24);
}

/// A 32-bit number takes four bytes.
pub broadcast proof fn lemma_enc32_len(v: int)
    ensures
        (#[trigger] enc32(v)).len() == 4,
{
    reveal(enc32);
}

/// The lengths of encoded numbers.
pub broadcast group group_encoded_lengths {
    lemma_enc16_len,
    lemma_enc24_len,
    lemma_enc32_len,
}

/// Reading back a 16-bit number gives its value modulo 2^16.
pub proof fn lemma_be16_enc16(v: int)
    ensures
        be16(enc16(v), 0) == v % 0x1_0000,
{
    reveal(enc16);
}

/// Reading back a 32-bit number gives its value modulo 2^32.
pub proof fn lemma_be32_enc32(v: int)
    ensures
        be32(enc32(v), 0) == v % 0x1_0000_0000,
{
    reveal(enc32);
    let q1 = v / 0x100;
    let q2 = v / 0x1_0000;
    let q3 = v / 0x100_0000;
    assert(q1 / 0x100 == q2);
    assert(q2 / 0x100 == q3);
    assert(v == q1 * 0x100 + v % 0x100);
    assert(q1 == q2 * 0x100 + q1 % 0x100);
    assert(q2 == q3 * 0x100 + q2 % 0x100);
    assert(q3 == q3 / 0x100 * 0x100 + q3 % 0x100);
    let r = (q3 % 0x100) * 0x100_0000 + (q2 % 0x100) * 0x1_0000 + (q1 % 0x100) * 0x100 + v % 0x100;
    assert(v == q3 / 0x100 * 0x1_0000_0000 + r);
    assert(v % 0x1_0000_0000 == r);
    let b = enc32(v);
    assert(b[0] == q3 % 0x100 && b[1] == q2 % 0x100 && b[2] == q1 % 0x100 && b[3] == v % 0x100);
}

/// Only the residue modulo 2^16 is encoded.
pub proof fn lemma_enc16_mod(v: int, w: int)
    requires
        v % 0x1_0000 == w % 0x1_0000,
    ensures
        enc16(v) == enc16(w),
{
    reveal(enc16);
    assert(v / 0x100 % 0x100 == v % 0x1_0000 / 0x100);
    assert(w / 0x100 % 0x100 == w % 0x1_0000 / 0x100);
    assert(v % 0x100 == v % 0x1_0000 % 0x100);
    assert(w % 0x100 == w % 0x1_0000 % 0x100);
}

/// A 16-bit number stays the same where its bytes are moved.
pub proof fn lemma_be16_moved(a: Seq<u8>, at: int, b: Seq<u8>, i: int)
    requires
        0 <= i,
        i + 2 <= b.len(),
        forall|j: int| 0 <= j < b.len() ==> #[trigger] b[j] == a[at + j],
    ensures
        be16(a, at + i) == be16(b, i),
{
    assert(b[i] == a[at + i]);
    assert(b[i + 1] == a[at + (i + 1)]);
}

/// A 32-bit number stays the same where its bytes are moved.
pub proof fn lemma_be32_moved(a: Seq<u8>, at: int, b: Seq<u8>, i: int)
    requires
        0 <= i,
        i + 4 <= b.len(),
        forall|j: int| 0 <= j < b.len() ==> #[trigger] b[j] == a[at + j],
    ensures
        be32(a, at + i) == be32(b, i),
{
    assert(b[i] == a[at + i]);
    assert(b[i + 1] == a[at + (i + 1)]);
    assert(b[i + 2] == a[at + (i + 2)]);
    assert(b[i + 3] == a[at + (i + 3)]);
}

proof fn lemma_digit3(v: int)
    ensures
        v / 0x100_0000 % 0x100 == v % 0x1_0000_0000 / 0x100_0000,
{
}

proof fn lemma_digit2(v: int)
    ensures
        v / 0x1_0000 % 0x100 == v % 0x1_0000_0000 / 0x1_0000 % 0x100,
{
    let m = v / 0x1_0000_0000;
    let a = v % 0x1_0000_0000;
    assert(v / 0x1_0000 == 0x1_0000 * m + a / 0x1_0000);
}

proof fn lemma_digit1(v: int)
    ensures
        v / 0x100 % 0x100 == v % 0x1_0000_0000 / 0x100 % 0x100,
{
    let m = v / 0x1_0000_0000;
    let a = v % 0x1_0000_0000;
    assert(v / 0x100 == 0x100_0000 * m + a / 0x100);
}

proof fn lemma_digit0(v: int)
    ensures
        v % 0x100 == v % 0x1_0000_0000 % 0x100,
{
}

/// The bytes of a number are those of its residue modulo 2^32.
proof fn lemma_digits32(v: int)
    ensures
        enc32(v) == enc32(v % 0x1_0000_0000),
{
    reveal(enc32);
    let a = v % 0x1_0000_0000;
    lemma_digit3(v);
    lemma_digit2(v);
    lemma_digit1(v);
    lemma_digit0(v);
    lemma_digit3(a);
}

/// Only the residue modulo 2^32 is encoded.
pub proof fn lemma_enc32_mod(v: int, w: int)
    requires
        v % 0x1_0000_0000 == w % 0x1_0000_0000,
    ensures
        enc32(v) == enc32(w),
{
    lemma_digits32(v);
    lemma_digits32(w);
}

/// The first `k` numbers, 16 bits each.
pub open spec fn numbers16(s: Seq<int>, k: int) -> Seq<u8>
    decreases k,
{
    if k <= 0 {
        Seq::empty()
    } else {
        numbers16(s, k - 1) + enc16(s[k - 1])
    }
}

/// Numbers can be read back.
pub proof fn lemma_numbers16(s: Seq<int>, k: int)
    requires
        0 <= k <= s.len(),
    ensures
        numbers16(s, k).len() == 2 * k,
        forall|i: int| 0 <= i < k ==> #[trigger] be16(numbers16(s, k), 2 * i) == s[i] % 0x1_0000,
    decreases k,
{
    broadcast use group_encoded_lengths;

    if k > 0 {
        lemma_numbers16(s, k - 1);
        let before = numbers16(s, k - 1);
        assert forall|i: int| 0 <= i < k implies #[trigger] be16(numbers16(s, k), 2 * i) == s[i]
            % 0x1_0000 by {
            if i < k - 1 {
                assert(be16(before, 2 * i) == s[i] % 0x1_0000);
            } else {
                lemma_be16_enc16(s[i]);
            }
        }
    }
}

/// Truncates a wide integer to 32 bits.
pub fn to_i32(x: i128) -> (r: i32)
    requires
        -0x1000_0000_0000_0000_0000 <= x <= 0x1000_0000_0000_0000_0000,
    ensures
        r == wrap32(x as int),
{
    assert(-0x1000_0000_0000_0000_0000 <= x <= 0x1000_0000_0000_0000_0000 ==> (x as i32) == (x
        + 0x8000_0000) % 0x1_0000_0000 - 0x8000_0000) by (bit_vector);
    x as i32
}

/// Truncates to 16 bits.
pub fn to_i16(x: i32) -> (r: i16)
    ensures
        r == wrap16(x as int),
{
    assert((x as i16) == (x + 0x8000) % 0x1_0000 - 0x8000) by (bit_vector);
    x as i16
}

/// The low 16 bits.
pub fn low16(x: usize) -> (r: u16)
    ensures
        r == x % 0x1_0000,
{
    (x % 0x1_0000) as u16
}

/// The low 32 bits.
pub fn low32(x: usize) -> (r: u32)
    ensures
        r == x as int % 0x1_0000_0000,
{
    ((x as u64) % 0x1_0000_0000) as u32
}

/// `x` divided by 64, rounded down.
pub fn shift6(x: i32) -> (r: i32)
    ensures
        r == (x as int) / 64,
{
    assert(x >> 6 == x / 64) by (bit_vector);
    x >> 6
}

/// The two's complement reading of a byte.
pub fn signed8(b: u8) -> (r: i32)
    ensures
        r == if b >= 0x80 { b - 0x100 } else { b as int },
{
    if b >= 0x80 {
        b as i32 - 0x100
    } else {
        b as i32
    }
}

/// The two's complement reading of a 16-bit number.
pub fn signed16(u: u16) -> (r: i16)
    ensures
        r == wrap16(u as int),
{
    if u >= 0x8000 {
        (u as i32 - 0x1_0000) as i16
    } else {
        u as i16
    }
}

/// The residue of a signed number modulo 2^16.
pub fn unsigned16(v: i16) -> (r: u16)
    ensures
        r == v as int % 0x1_0000,
{
    if v < 0 {
        (v as i32 + 0x1_0000) as u16
    } else {
        v as u16
    }
}

/// Reads the 16-bit number at `i`.
pub fn get16(s: &[u8], i: usize) -> (r: u16)
    requires
        i + 2 <= s@.len(),
    ensures
        r == be16(s@, i as int),
{
    (s[i] as u16) * 0x100 + s[i + 1] as u16
}

/// Reads the 32-bit number at `i`.
pub fn get32(s: &[u8], i: usize) -> (r: u32)
    requires
        i + 4 <= s@.len(),
    ensures
        r == be32(s@, i as int),
{
    (s[i] as u32) * 0x100_0000 + (s[i + 1] as u32) * 0x1_0000 + (s[i + 2] as u32) * 0x100 + s[i + 3]
        as u32
}

/// Appends a 16-bit number.
pub fn push16(out: &mut Vec<u8>, v: u16)
    ensures
        final(out)@ == old(out)@ + enc16(v as int),
{
    proof {
        reveal(enc16);
    }
    out.push((v / 0x100) as u8);
    out.push((v % 0x100) as u8);
    assert(out@ =~= old(out)@ + enc16(v as int));
}

/// Appends a 16-bit two's complement number.
pub fn push_signed16(out: &mut Vec<u8>, v: i16)
    ensures
        final(out)@ == old(out)@ + enc16(v as int),
{
    let u = unsigned16(v);
    proof {
        lemma_enc16_mod(v as int, u as int);
    }
    push16(out, u);
}

/// Appends a 24-bit number.
pub fn push24(out: &mut Vec<u8>, v: u32)
    ensures
        final(out)@ == old(out)@ + enc24(v as int),
{
    proof {
        reveal(enc24);
    }
    out.push((v / 0x1_0000 % 0x100) as u8);
    out.push((v / 0x100 % 0x100) as u8);
    out.push((v % 0x100) as u8);
    assert(out@ =~= old(out)@ + enc24(v as int));
}

/// Appends a 32-bit number.
pub fn push32(out: &mut Vec<u8>, v: u32)
    ensures
        final(out)@ == old(out)@ + enc32(v as int),
{
    proof {
        reveal(enc32);
    }
    out.push((v / 0x100_0000) as u8);
    out.push((v / 0x1_0000 % 0x100) as u8);
    out.push((v / 0x100 % 0x100) as u8);
    out.push((v % 0x100) as u8);
    assert(out@ =~= old(out)@ + enc32(v as int));
}

/// Appends the low 16 bits of a length or an offset.
pub fn push_len16(out: &mut Vec<u8>, v: usize)
    ensures
        final(out)@ == old(out)@ + enc16(v as int),
{
    let u = low16(v);
    proof {
        lemma_enc16_mod(v as int, u as int);
    }
    push16(out, u);
}

/// Appends the low 32 bits of a length or an offset.
pub fn push_len32(out: &mut Vec<u8>, v: usize)
    ensures
        final(out)@ == old(out)@ + enc32(v as int),
{
    let u = low32(v);
    proof {
        lemma_enc32_mod(v as int, u as int);
    }
    push32(out, u);
}

/// Appends a run of bytes.
pub fn append(out: &mut Vec<u8>, s: &[u8])
    ensures
        final(out)@ == old(out)@ + s@,
{
    out.extend_from_slice(s);
    assert(out@ =~= old(out)@ + s@);
}

/// Appends `n` zero bytes.
pub fn append_zeros(out: &mut Vec<u8>, n: usize)
    ensures
        final(out)@ == old(out)@ + zeros(n as nat),
{
    let mut i: usize = 0;
    while i < n
        invariant
            i <= n,
            out@ =~= old(out)@ + zeros(i as nat),
        decreases n - i,
    {
        out.push(0);
        i += 1;
    }
}

/// Appends `s` and zero bytes up to a multiple of four.
pub fn append_padded(out: &mut Vec<u8>, s: &[u8])
    ensures
        final(out)@ == old(out)@ + padded(s@),
{
    append(out, s);
    let rem: usize = s.len() % 4;
    if rem != 0 {
        append_zeros(out, 4 - rem);
    }
    assert(out@ =~= old(out)@ + padded(s@));
}

/// Overwrites the two bytes at `i`.
pub fn set16(v: &mut Vec<u8>, i: usize, x: u16)
    requires
        i + 2 <= old(v).len(),
    ensures
        final(v)@ == splice(old(v)@, i as int, enc16(x as int)),
{
    proof {
        reveal(enc16);
    }
    v.set(i, (x / 0x100) as u8);
    v.set(i + 1, (x % 0x100) as u8);
    assert(v@ =~= splice(old(v)@, i as int, enc16(x as int)));
}

/// Overwrites the two bytes at `i` with a two's complement number.
pub fn set_signed16(v: &mut Vec<u8>, i: usize, x: i16)
    requires
        i + 2 <= old(v).len(),
    ensures
        final(v)@ == splice(old(v)@, i as int, enc16(x as int)),
{
    let u = unsigned16(x);
    proof {
        lemma_enc16_mod(x as int, u as int);
    }
    set16(v, i, u);
}

/// Overwrites the two bytes at `i` with the low 16 bits of a length.
pub fn set_len16(v: &mut Vec<u8>, i: usize, x: usize)
    requires
        i + 2 <= old(v).len(),
    ensures
        final(v)@ == splice(old(v)@, i as int, enc16(x as int)),
{
    let u = low16(x);
    proof {
        lemma_enc16_mod(x as int, u as int);
    }
    set16(v, i, u);
}

/// Overwrites the four bytes at `i`.
pub fn set32(v: &mut Vec<u8>, i: usize, x: u32)
    requires
        i + 4 <= old(v).len(),
    ensures
        final(v)@ == splice(old(v)@, i as int, enc32(x as int)),
{
    proof {
        reveal(enc32);
    }
    v.set(i, (x / 0x100_0000) as u8);
    v.set(i + 1, (x / 0x1_0000 % 0x100) as u8);
    v.set(i + 2, (x / 0x100 % 0x100) as u8);
    v.set(i + 3, (x % 0x100) as u8);
    assert(v@ =~= splice(old(v)@, i as int, enc32(x as int)));
}

/// Whether two runs of bytes are equal.
pub fn same_bytes(a: &[u8], b: &[u8]) -> (r: bool)
    ensures
        r == (a@ == b@),
{
    if a.len() != b.len() {
        return false;
    }
    let mut i: usize = 0;
    while i < a.len()
        invariant
            i <= a@.len(),
            a@.len() == b@.len(),
            forall|k: int| 0 <= k < i ==> a@[k] == b@[k],
        decreases a@.len() - i,
    {
        if a[i] != b[i] {
            return false;
        }
        i += 1;
    }
    assert(a@ =~= b@);
    true
}

/// The bytes of `s` from `i` to the end.
pub fn tail(s: &[u8], i: usize) -> (r: &[u8])
    requires
        i <= s@.len(),
    ensures
        r@ == s@.skip(i as int),
{
    slice_subrange(s, i, s.len())
}

} // verus!
