//! Bit sequences, most significant bit first, and how they sit in words and
//! bytes.
use vstd::prelude::*;

verus! {

/// Bit `j` of a word, counted from the most significant bit.
pub open spec fn bit64(w: u64, j: u64) -> bool {
    (w >> ((63 - j) as u64)) & 1 == 1
}

/// Bit `j` of a byte, counted from the most significant bit.
pub open spec fn bit8(b: u8, j: u8) -> bool {
    (b >> ((7 - j) as u8)) & 1 == 1
}

/// `v` has no bit set at or above bit `c` (counted from the least
/// significant bit).
pub open spec fn fits(v: u64, c: u64) -> bool {
    c >= 64 || v >> c == 0
}

/// The low `n` bits of `v`, most significant first.
pub open spec fn nat_bits(v: nat, n: nat) -> Seq<bool>
    decreases n,
{
    if n == 0 {
        seq![]
    } else {
        nat_bits(v / 2, (n - 1) as nat).push(v % 2 == 1)
    }
}

/// The number that bits stand for, most significant first.
pub open spec fn from_bits(s: Seq<bool>) -> nat
    decreases s.len(),
{
    if s.len() == 0 {
        0
    } else {
        2 * from_bits(s.drop_last()) + if s.last() {
            1nat
        } else {
            0nat
        }
    }
}

/// The bits of bytes, most significant first.
pub open spec fn byte_bits(bytes: Seq<u8>) -> Seq<bool> {
    Seq::new(8 * bytes.len(), |i: int| bit8(bytes[i / 8], (i % 8) as u8))
}

proof fn lemma_bit64_shr1(v: u64, j: u64)
    requires
        j < 63,
    ensures
        bit64(v >> 1, (j + 1) as u64) == bit64(v, j),
{
    assert(((v >> 1u64) >> ((63 - (j + 1)) as u64)) & 1 == (v >> ((63 - j) as u64)) & 1) by (bit_vector)
        requires
            j < 63,
    ;
}

/// The low `c` bits of a word are its bits `64 - c` to 63.
pub proof fn lemma_nat_bits_u64(v: u64, c: u64)
    requires
        c <= 64,
    ensures
        nat_bits(v as nat, c as nat).len() == c,
        forall|k: int| 0 <= k < c ==> #[trigger] nat_bits(v as nat, c as nat)[k] == bit64(v, (64 - c + k) as u64),
    decreases c,
{
    if c > 0 {
        let h = v >> 1;
        assert(v >> 1 == v / 2) by (bit_vector);
        lemma_nat_bits_u64(h, (c - 1) as u64);
        let s = nat_bits(v as nat, c as nat);
        assert(s == nat_bits(h as nat, (c - 1) as nat).push(v % 2 == 1));
        assert forall|k: int| 0 <= k < c implies #[trigger] s[k] == bit64(v, (64 - c + k) as u64) by {
            if k < c - 1 {
                lemma_bit64_shr1(v, (64 - c + k) as u64);
            } else {
                assert(((v >> ((63 - 63u64) as u64)) & 1 == 1) == (v % 2 == 1)) by (bit_vector);
            }
        }
    }
}

/// The zero word has no bit set.
pub proof fn lemma_bit64_zero(j: u64)
    ensures
        !bit64(0, j),
{
    assert(!((0u64 >> ((63 - j) as u64)) & 1 == 1)) by (bit_vector);
}

/// Bit `b` of byte `m` of a word, bytes taken most significant first, is bit
/// `8 * m + b` of the word.
pub proof fn lemma_word_byte_bit(w: u64, m: u64, b: u8)
    requires
        m < 8,
        b < 8,
    ensures
        bit8((w >> ((56 - 8 * m) as u64)) as u8, b) == bit64(w, (8 * m + b) as u64),
{
    assert((((w >> ((56 - 8 * m) as u64)) as u8) >> ((7 - b) as u8)) & 1 == 1 <==> (w >> ((63 - (8 * m + b)) as u64)) & 1 == 1) by (bit_vector)
        requires
            m < 8,
            b < 8,
    ;
}

/// Reading `count` bits of a byte from bit `cur` on: the result holds them as
/// its low bits.
pub proof fn lemma_read_in_byte(x: u8, cur: u8, count: u8, k: u64)
    requires
        1 <= count,
        cur + count <= 8,
        k < count,
    ensures
        bit64(((x >> ((8 - cur - count) as u8)) & (0xffu8 >> ((8 - count) as u8))) as u64, (64 - count + k) as u64) == bit8(x, (cur + k) as u8),
        fits(((x >> ((8 - cur - count) as u8)) & (0xffu8 >> ((8 - count) as u8))) as u64, count as u64),
{
    assert(((((x >> ((8 - cur - count) as u8)) & (0xffu8 >> ((8 - count) as u8))) as u64) >> ((63 - (64 - count + k)) as u64)) & 1 == 1
        <==> (x >> ((7 - (cur + k)) as u8)) & 1 == 1) by (bit_vector)
        requires
            1 <= count,
            cur + count <= 8,
            k < count,
    ;
    assert(count >= 64 || (((x >> ((8 - cur - count) as u8)) & (0xffu8 >> ((8 - count) as u8))) as u64) >> (count as u64) == 0) by (bit_vector)
        requires
            1 <= count,
            cur + count <= 8,
    ;
}

/// The rest of a byte from bit `cur` on, as the low bits of a word.
pub proof fn lemma_read_byte_rest(x: u8, cur: u8, k: u64)
    requires
        cur < 8,
        k < 8 - cur,
    ensures
        bit64((x & (0xffu8 >> cur)) as u64, (64 - (8 - cur) + k) as u64) == bit8(x, (cur + k) as u8),
        fits((x & (0xffu8 >> cur)) as u64, (8 - cur) as u64),
{
    assert((((x & (0xffu8 >> cur)) as u64) >> ((63 - (64 - (8 - cur) + k)) as u64)) & 1 == 1
        <==> (x >> ((7 - (cur + k)) as u8)) & 1 == 1) by (bit_vector)
        requires
            cur < 8,
            k < 8 - cur,
    ;
    assert(((x & (0xffu8 >> cur)) as u64) >> ((8 - cur) as u64) == 0) by (bit_vector)
        requires
            cur < 8,
    ;
}

/// Appending the first `r` bits of a byte to the low end of a word that
/// holds `m` bits.
pub proof fn lemma_append_byte_bits(a: u64, m: u64, y: u8, r: u64, k: u64)
    requires
        1 <= r <= 8,
        m + r <= 64,
        fits(a, m),
        k < m + r,
    ensures
        bit64((a << r) | ((y >> ((8 - r) as u8)) as u64), (64 - (m + r) + k) as u64) == if k < m {
            bit64(a, (64 - m + k) as u64)
        } else {
            bit8(y, (k - m) as u8)
        },
        fits((a << r) | ((y >> ((8 - r) as u8)) as u64), (m + r) as u64),
{
    assert((((a << r) | ((y >> ((8 - r) as u8)) as u64)) >> ((63 - (64 - (m + r) + k)) as u64)) & 1 == 1
        <==> if k < m {
            (a >> ((63 - (64 - m + k)) as u64)) & 1 == 1
        } else {
            (y >> ((7 - (k - m)) as u8)) & 1 == 1
        }) by (bit_vector)
        requires
            1 <= r <= 8,
            m + r <= 64,
            m >= 64 || a >> m == 0,
            k < m + r,
    ;
    assert(m + r >= 64 || ((a << r) | ((y >> ((8 - r) as u8)) as u64)) >> (m + r) == 0) by (bit_vector)
        requires
            1 <= r <= 8,
            m + r <= 64,
            m >= 64 || a >> m == 0,
    ;
}

/// Bit `j` of an exclusive or.
pub proof fn lemma_bit64_xor(a: u64, b: u64, j: u64)
    requires
        j < 64,
    ensures
        bit64(a ^ b, j) == (bit64(a, j) != bit64(b, j)),
{
    assert(((a ^ b) >> ((63 - j) as u64)) & 1 == 1 <==> (((a >> ((63 - j) as u64)) & 1 == 1) != ((b >> ((63 - j) as u64)) & 1 == 1))) by (bit_vector)
        requires
            j < 64,
    ;
}

/// Bit `j` of a word shifted left by `s`.
pub proof fn lemma_bit64_shl(v: u64, s: u64, j: u64)
    requires
        s < 64,
        j < 64,
    ensures
        bit64(v << s, j) == (j + s < 64 && bit64(v, (j + s) as u64)),
{
    assert(((v << s) >> ((63 - j) as u64)) & 1 == 1 <==> (j + s < 64 && (v >> ((63 - (j + s)) as u64)) & 1 == 1)) by (bit_vector)
        requires
            s < 64,
            j < 64,
    ;
}

/// Bit `j` of a word shifted right by `s`.
pub proof fn lemma_bit64_shr(v: u64, s: u64, j: u64)
    requires
        s < 64,
        j < 64,
    ensures
        bit64(v >> s, j) == (j >= s && bit64(v, (j - s) as u64)),
{
    assert(((v >> s) >> ((63 - j) as u64)) & 1 == 1 <==> (j >= s && (v >> ((63 - (j - s)) as u64)) & 1 == 1)) by (bit_vector)
        requires
            s < 64,
            j < 64,
    ;
}

/// A word that fits in `c` bits has none of its first `64 - c` bits set.
pub proof fn lemma_bit64_fits(v: u64, c: u64, j: u64)
    requires
        c <= 64,
        fits(v, c),
        j < 64 - c,
    ensures
        !bit64(v, j),
{
    assert(!((v >> ((63 - j) as u64)) & 1 == 1)) by (bit_vector)
        requires
            c <= 64,
            c >= 64 || v >> c == 0,
            j < 64 - c,
    ;
}

/// A word that fits in `c` bits is the number its low `c` bits stand for.
pub proof fn lemma_from_nat_bits_u64(v: u64, c: u64)
    requires
        c <= 64,
        fits(v, c),
    ensures
        from_bits(nat_bits(v as nat, c as nat)) == v,
    decreases c,
{
    if c == 0 {
        assert(v >> 0u64 == v) by (bit_vector);
    } else {
        let h = v >> 1;
        assert(v >> 1 == v / 2) by (bit_vector);
        assert(fits(h, (c - 1) as u64)) by (bit_vector)
            requires
                0 < c <= 64,
                c >= 64 || v >> c == 0,
                h == v >> 1,
        ;
        lemma_from_nat_bits_u64(h, (c - 1) as u64);
        let s = nat_bits(v as nat, c as nat);
        assert(s.drop_last() =~= nat_bits(h as nat, (c - 1) as nat));
    }
}

} // verus!
