//! The byte format that postcard gives integers: LEB128 varints, with
//! zigzag for signed values.
use vstd::prelude::*;

verus! {

/// One more than the largest `u32`.
pub open spec fn bound_u32() -> nat {
    0x1_0000_0000
}

/// One more than the largest `u16`.
pub open spec fn bound_u16() -> nat {
    0x1_0000
}

/// One more than the largest `u64`.
pub open spec fn bound_u64() -> nat {
    0x1_0000_0000_0000_0000
}

/// One more than the largest `u128`.
pub open spec fn bound_u128() -> nat {
    u128::MAX as nat + 1
}

/// The LEB128 bytes of `n`: seven bits per byte, least significant first,
/// the high bit set on every byte but the last.
pub open spec fn varint(n: nat) -> Seq<u8>
    decreases n,
{
    if n < 128 {
        seq![n as u8]
    } else {
        seq![((n % 128) + 128) as u8] + varint(n / 128)
    }
}

/// Reads a LEB128 number from the front of `s`, looking at no more than `k`
/// bytes: the value and the number of bytes it took.
pub open spec fn read_varint(s: Seq<u8>, k: nat) -> Option<(nat, nat)>
    decreases k,
{
    if k == 0 || s.len() == 0 {
        None
    } else if s[0] < 128 {
        Some((s[0] as nat, 1))
    } else {
        match read_varint(s.drop_first(), (k - 1) as nat) {
            Some((v, n)) => Some((((s[0] - 128) + 128 * v) as nat, n + 1)),
            None => None,
        }
    }
}

/// A LEB128 number of at most `k` bytes whose value is below `bound`.
pub open spec fn parse_bounded(s: Seq<u8>, k: nat, bound: nat) -> Option<(nat, nat)> {
    match read_varint(s, k) {
        Some((v, n)) => if v < bound {
            Some((v, n))
        } else {
            None
        },
        None => None,
    }
}

/// How postcard reads a `u64` (and a `usize`): at most ten bytes.
pub open spec fn parse_u64(s: Seq<u8>) -> Option<(nat, nat)> {
    parse_bounded(s, 10, bound_u64())
}

/// How postcard reads a `u16`: at most three bytes.
pub open spec fn parse_u16(s: Seq<u8>) -> Option<(nat, nat)> {
    parse_bounded(s, 3, bound_u16())
}

/// How postcard reads an `i16`: a `u16` read, then unzigzagged.
pub open spec fn parse_i16(s: Seq<u8>) -> Option<(int, nat)> {
    match parse_u16(s) {
        Some((v, n)) => Some((unzigzag(v), n)),
        None => None,
    }
}

/// How postcard reads a `u32`: at most five bytes.
pub open spec fn parse_u32(s: Seq<u8>) -> Option<(nat, nat)> {
    parse_bounded(s, 5, bound_u32())
}

/// How postcard reads a `u128`: at most nineteen bytes.
pub open spec fn parse_u128(s: Seq<u8>) -> Option<(nat, nat)> {
    parse_bounded(s, 19, bound_u128())
}

/// How postcard reads a `usize`: as a `u64` that must then fit the target's
/// `usize`.
pub open spec fn parse_usize(s: Seq<u8>) -> Option<(nat, nat)> {
    match parse_u64(s) {
        Some((v, n)) => if v <= usize::MAX {
            Some((v, n))
        } else {
            None
        },
        None => None,
    }
}

/// How postcard reads an `i64`: a `u64` read, then unzigzagged.
pub open spec fn parse_i64(s: Seq<u8>) -> Option<(int, nat)> {
    match parse_u64(s) {
        Some((v, n)) => Some((unzigzag(v), n)),
        None => None,
    }
}

/// How postcard reads an `i32`: a `u32` read, then unzigzagged.
pub open spec fn parse_i32(s: Seq<u8>) -> Option<(int, nat)> {
    match parse_u32(s) {
        Some((v, n)) => Some((unzigzag(v), n)),
        None => None,
    }
}

/// How postcard reads an `i128`: a `u128` read, then unzigzagged.
pub open spec fn parse_i128(s: Seq<u8>) -> Option<(int, nat)> {
    match parse_u128(s) {
        Some((v, n)) => Some((unzigzag(v), n)),
        None => None,
    }
}

/// How postcard reads an `isize`: an `i64` that must then fit the target's
/// `isize`.
pub open spec fn parse_isize(s: Seq<u8>) -> Option<(int, nat)> {
    match parse_i64(s) {
        Some((v, n)) => if isize::MIN <= v <= isize::MAX {
            Some((v, n))
        } else {
            None
        },
        None => None,
    }
}

/// How postcard reads a `u8`: the first byte as it stands.
pub open spec fn parse_u8(s: Seq<u8>) -> Option<(nat, nat)> {
    if s.len() >= 1 {
        Some((s[0] as nat, 1))
    } else {
        None
    }
}

/// How postcard reads a `bool`: one byte, which must be 0 or 1.
pub open spec fn parse_bool(s: Seq<u8>) -> Option<(bool, nat)> {
    if s.len() >= 1 && s[0] <= 1 {
        Some((s[0] == 1, 1))
    } else {
        None
    }
}

/// The bytes of `s` end inside a value of at most `k` bytes: every byte
/// there is announces one more.
pub open spec fn truncated(s: Seq<u8>, k: nat) -> bool {
    s.len() < k && forall|i: int| 0 <= i < s.len() ==> #[trigger] s[i] >= 128
}

/// The bytes that a read took from `s` when `rest` is what it left.
pub open spec fn taken(s: Seq<u8>, rest: Seq<u8>) -> nat {
    (s.len() - rest.len()) as nat
}

/// `rest` is what stands in `s` after its first `taken(s, rest)` bytes.
pub open spec fn is_rest_of(s: Seq<u8>, rest: Seq<u8>) -> bool {
    rest.len() <= s.len() && rest == s.skip(s.len() - rest.len())
}

/// Zigzag: 0, -1, 1, -2, 2, ... become 0, 1, 2, 3, 4, ...
pub open spec fn zigzag(v: int) -> nat {
    if v >= 0 {
        (2 * v) as nat
    } else {
        (-2 * v - 1) as nat
    }
}

/// The inverse of [`zigzag`].
pub open spec fn unzigzag(u: nat) -> int {
    if u % 2 == 0 {
        (u / 2) as int
    } else {
        -((u + 1) / 2)
    }
}

/// `k` seven-bit digits hold any number below `128^k`.
pub open spec fn pow128(k: nat) -> nat
    decreases k,
{
    if k == 0 {
        1
    } else {
        128 * pow128((k - 1) as nat)
    }
}

pub proof fn lemma_varint_nonempty(n: nat)
    ensures
        varint(n).len() >= 1,
    decreases n,
{
}

pub proof fn lemma_varint_len(n: nat, k: nat)
    requires
        k >= 1,
        n < pow128(k),
    ensures
        varint(n).len() <= k,
    decreases n,
{
    if n >= 128 {
        assert(k > 1) by {
            if k == 1 {
                assert(pow128(0) == 1);
            }
        }
        assert(n / 128 < pow128((k - 1) as nat));
        lemma_varint_len(n / 128, (k - 1) as nat);
    }
}

pub proof fn lemma_pow128_values()
    ensures
        pow128(3) == 0x20_0000,
        pow128(5) == 0x8_0000_0000,
        pow128(10) == 0x40_0000_0000_0000_0000,
        pow128(19) == 32 * bound_u128(),
{
    reveal_with_fuel(pow128, 20);
}

/// Reading the LEB128 bytes of `n`, followed by anything, gives back `n`.
pub proof fn lemma_read_varint(n: nat, rest: Seq<u8>, k: nat)
    requires
        varint(n).len() <= k,
    ensures
        read_varint(varint(n) + rest, k) == Some((n, varint(n).len())),
    decreases n,
{
    let s = varint(n) + rest;
    if n < 128 {
        assert(s[0] == n as u8);
    } else {
        lemma_varint_nonempty(n / 128);
        lemma_read_varint(n / 128, rest, (k - 1) as nat);
        assert(s.drop_first() =~= varint(n / 128) + rest);
        assert(s[0] == ((n % 128) + 128) as u8);
    }
}

/// Postcard reads back the `u64` it wrote.
pub proof fn lemma_parse_u64_varint(n: nat, rest: Seq<u8>)
    requires
        n < bound_u64(),
    ensures
        parse_u64(varint(n) + rest) == Some((n, varint(n).len())),
        1 <= varint(n).len() <= 10,
{
    lemma_pow128_values();
    lemma_varint_len(n, 10);
    lemma_varint_nonempty(n);
    lemma_read_varint(n, rest, 10);
}

/// Postcard reads back the `u32` it wrote.
pub proof fn lemma_parse_u32_varint(n: nat, rest: Seq<u8>)
    requires
        n < bound_u32(),
    ensures
        parse_u32(varint(n) + rest) == Some((n, varint(n).len())),
        1 <= varint(n).len() <= 5,
{
    lemma_pow128_values();
    lemma_varint_len(n, 5);
    lemma_varint_nonempty(n);
    lemma_read_varint(n, rest, 5);
}

/// Postcard reads back the `u16` it wrote.
pub proof fn lemma_parse_u16_varint(n: nat, rest: Seq<u8>)
    requires
        n < bound_u16(),
    ensures
        parse_u16(varint(n) + rest) == Some((n, varint(n).len())),
        1 <= varint(n).len() <= 3,
{
    lemma_pow128_values();
    lemma_varint_len(n, 3);
    lemma_varint_nonempty(n);
    lemma_read_varint(n, rest, 3);
}

/// Postcard reads back the `u128` it wrote.
pub proof fn lemma_parse_u128_varint(n: nat, rest: Seq<u8>)
    requires
        n < bound_u128(),
    ensures
        parse_u128(varint(n) + rest) == Some((n, varint(n).len())),
        1 <= varint(n).len() <= 19,
{
    lemma_pow128_values();
    lemma_varint_len(n, 19);
    lemma_varint_nonempty(n);
    lemma_read_varint(n, rest, 19);
}

/// A successful read takes at least one byte and no more than it was given.
pub proof fn lemma_read_varint_len(s: Seq<u8>, k: nat)
    ensures
        read_varint(s, k) matches Some((v, n)) ==> 1 <= n <= s.len() && n <= k,
    decreases k,
{
    if k > 0 && s.len() > 0 && s[0] >= 128 {
        lemma_read_varint_len(s.drop_first(), (k - 1) as nat);
    }
}

/// Postcard reads back the `usize` it wrote.
pub proof fn lemma_parse_usize_varint(n: nat, rest: Seq<u8>)
    requires
        n <= usize::MAX,
    ensures
        parse_usize(varint(n) + rest) == Some((n, varint(n).len())),
        1 <= varint(n).len() <= 10,
{
    lemma_parse_u64_varint(n, rest);
}

/// A successful parse takes at least one byte and no more than it was given.
pub proof fn lemma_parse_bounded_len(s: Seq<u8>, k: nat, bound: nat)
    ensures
        parse_bounded(s, k, bound) matches Some((v, n)) ==> 1 <= n <= s.len() && v < bound,
{
    lemma_read_varint_len(s, k);
}

/// Each parse takes at least one byte and no more than it was given.
pub proof fn lemma_parse_len(s: Seq<u8>)
    ensures
        parse_u64(s) matches Some((v, n)) ==> 1 <= n <= s.len() && v < bound_u64(),
        parse_u16(s) matches Some((v, n)) ==> 1 <= n <= s.len() && v < bound_u16(),
        parse_u32(s) matches Some((v, n)) ==> 1 <= n <= s.len() && v < bound_u32(),
        parse_u128(s) matches Some((v, n)) ==> 1 <= n <= s.len() && v < bound_u128(),
        parse_usize(s) matches Some((v, n)) ==> 1 <= n <= s.len() && v <= usize::MAX,
{
    lemma_parse_bounded_len(s, 10, bound_u64());
    lemma_parse_bounded_len(s, 3, bound_u16());
    lemma_parse_bounded_len(s, 5, bound_u32());
    lemma_parse_bounded_len(s, 19, bound_u128());
}

/// Zigzag keeps a value of `bits`-wide signed range inside the unsigned range.
pub proof fn lemma_zigzag_bounds(v: int)
    ensures
        i64::MIN <= v <= i64::MAX ==> zigzag(v) < bound_u64(),
        i16::MIN <= v <= i16::MAX ==> zigzag(v) < bound_u16(),
        i32::MIN <= v <= i32::MAX ==> zigzag(v) < bound_u32(),
        i128::MIN <= v <= i128::MAX ==> zigzag(v) < bound_u128(),
{
}

} // verus!
