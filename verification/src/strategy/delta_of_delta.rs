//! Delta-of-delta encoding: the first number as a postcard `i64`, then for
//! each later number the change of its difference from the previous one, as
//! a variable-length bit code.
use vstd::prelude::*;
use crate::codec::Rleable;
use crate::err::ColumnarError;
use crate::strategy::bits::{
    bit64, bit8, fits, lemma_bit64_fits, lemma_bit64_shl, lemma_bit64_shr,
    lemma_bit64_xor, lemma_bit64_zero, lemma_word_byte_bit, lemma_nat_bits_u64, nat_bits,
};
use crate::strategy::write_value;

verus! {

/// The bound of the widest short code of a delta of delta.
pub const MAX_DELTA_OF_DELTA: i64 = 1_048_576;

/// The bits written for a delta of delta `d`: a prefix that gives the width,
/// then `d` plus a bias in that width; 64 bits of two's complement for the
/// widest.
pub open spec fn dod_code(d: int) -> Seq<bool> {
    if d == 0 {
        seq![false]
    } else if -63 <= d <= 64 {
        seq![true, false] + nat_bits((d + 63) as nat, 7)
    } else if -255 <= d <= 256 {
        seq![true, true, false] + nat_bits((d + 255) as nat, 9)
    } else if -2047 <= d <= 2048 {
        seq![true, true, true, false] + nat_bits((d + 2047) as nat, 12)
    } else if -(MAX_DELTA_OF_DELTA - 1) <= d <= MAX_DELTA_OF_DELTA {
        seq![true, true, true, true, false] + nat_bits((d + MAX_DELTA_OF_DELTA - 1) as nat, 21)
    } else {
        seq![true, true, true, true, true] + nat_bits(((d as i64) as u64) as nat, 64)
    }
}

/// The difference of the last two numbers (0 for fewer than two).
pub open spec fn last_delta(vs: Seq<i64>) -> int {
    if vs.len() < 2 {
        0
    } else {
        vs.last() - vs[vs.len() - 2]
    }
}

/// The encoder takes every number of `vs`: no difference and no change of
/// difference leaves the range of `i64`.
pub open spec fn dod_encodable(vs: Seq<i64>) -> bool
    decreases vs.len(),
{
    if vs.len() <= 1 {
        true
    } else {
        let prev = vs.drop_last();
        let d = vs.last() - prev.last();
        &&& dod_encodable(prev)
        &&& i64::MIN <= d <= i64::MAX
        &&& i64::MIN <= d - last_delta(prev) <= i64::MAX
    }
}

/// The bits written for the numbers after the first.
pub open spec fn dod_stream(vs: Seq<i64>) -> Seq<bool>
    decreases vs.len(),
{
    if vs.len() <= 1 {
        seq![]
    } else {
        let prev = vs.drop_last();
        dod_stream(prev) + dod_code((vs.last() - prev.last()) - last_delta(prev))
    }
}

/// `body` holds the bits `s`, eight to a byte, the last byte padded with
/// zeros.
pub open spec fn packs(body: Seq<u8>, s: Seq<bool>) -> bool {
    &&& body.len() == (s.len() + 7) / 8
    &&& forall|i: int| 0 <= i < 8 * body.len() ==> #[trigger] bit8(body[i / 8], (i % 8) as u8) == (i < s.len() && s[i])
}

/// `bytes` is what the delta-of-delta encoder writes for `vs`; `use_bit`
/// tells whether anything was appended after the first number.
pub open spec fn is_dod_encoding(bytes: Seq<u8>, vs: Seq<i64>, use_bit: bool) -> bool {
    let head = if vs.len() > 0 {
        i64::spec_encode(vs[0])
    } else {
        Seq::<u8>::empty()
    };
    let s = dod_stream(vs);
    let last: u8 = if s.len() % 8 == 0 && use_bit {
        8
    } else {
        (s.len() % 8) as u8
    };
    &&& bytes.len() == head.len() + 1 + (s.len() + 7) / 8
    &&& bytes.subrange(0, head.len() as int) == head
    &&& bytes[head.len() as int] == last
    &&& packs(bytes.skip((head.len() + 1) as int), s)
}

/// The words hold the bits `s`, 64 to a word, `lub` of them in the last
/// word, the rest of it zero.
pub open spec fn layout_ok(words: Seq<u64>, lub: nat, s: Seq<bool>) -> bool {
    &&& words.len() >= 1
    &&& lub <= 64
    &&& lub == 0 ==> words.len() == 1
    &&& s.len() == 64 * (words.len() - 1) + lub
    &&& forall|k: int, j: int|
        0 <= k < words.len() && 0 <= j < 64 ==> #[trigger] bit64(words[k], j as u64) == (64 * k + j < s.len() && s[64 * k + j])
}

/// Encodes numbers as delta-of-delta bit codes.
pub struct DeltaOfDeltaEncoder {
    bits: Vec<u64>,
    last_used_bit: u8,
    head_num: Option<i64>,
    prev_value: i64,
    prev_delta: i64,
    use_bit: bool,
    values: Ghost<Seq<i64>>,
}

impl View for DeltaOfDeltaEncoder {
    type V = Seq<i64>;

    /// The numbers appended so far.
    closed spec fn view(&self) -> Seq<i64> {
        self.values@
    }
}

impl DeltaOfDeltaEncoder {
    /// Whether anything was appended after the first number, taken or not.
    pub closed spec fn use_bit(&self) -> bool {
        self.use_bit
    }

    /// The encoder's state agrees with the numbers appended so far.
    pub closed spec fn wf(&self) -> bool {
        let vs = self.values@;
        &&& layout_ok(self.bits@, self.last_used_bit as nat, dod_stream(vs))
        &&& dod_encodable(vs)
        &&& self.head_num == if vs.len() > 0 {
            Some(vs[0])
        } else {
            None::<i64>
        }
        &&& vs.len() > 0 ==> self.prev_value == vs.last() && self.prev_delta == last_delta(vs)
        &&& vs.len() == 0 ==> !self.use_bit && self.prev_delta == 0
        &&& vs.len() >= 2 ==> self.use_bit
    }

    pub fn new() -> (r: Self)
        ensures
            r.wf(),
            r@ == Seq::<i64>::empty(),
            !r.use_bit(),
    {
        let mut bits = Vec::new();
        bits.push(0u64);
        let r = DeltaOfDeltaEncoder {
            bits,
            head_num: None,
            last_used_bit: 0,
            prev_value: 0,
            prev_delta: 0,
            use_bit: false,
            values: Ghost(Seq::empty()),
        };
        proof {
            assert forall|k: int, j: int| 0 <= k < r.bits@.len() && 0 <= j < 64 implies #[trigger] bit64(r.bits@[k], j as u64) == (64 * k + j < 0 && dod_stream(Seq::<i64>::empty())[64 * k + j]) by {
                lemma_bit64_zero(j as u64);
            }
        }
        r
    }

    /// Appends a number; an error where its difference from the previous
    /// one, or the change of that difference, leaves the range of `i64`.
    pub fn append(&mut self, value: i64) -> (r: Result<(), ColumnarError>)
        requires
            old(self).wf(),
        ensures
            final(self).wf(),
            old(self)@.len() == 0 ==> r is Ok && final(self)@ == seq![value] && !final(self).use_bit(),
            old(self)@.len() > 0 ==> final(self).use_bit(),
            old(self)@.len() > 0 ==> (r is Ok <==> (i64::MIN <= value - old(self)@.last() <= i64::MAX
                && i64::MIN <= (value - old(self)@.last()) - last_delta(old(self)@) <= i64::MAX)),
            old(self)@.len() > 0 && r is Ok ==> final(self)@ == old(self)@.push(value),
            r is Err ==> final(self)@ == old(self)@,
            r matches Err(e) ==> e is RleEncodeError,
            old(self)@.len() > 0 && !(i64::MIN <= value - old(self)@.last() <= i64::MAX) ==> (r
                matches Err(ColumnarError::RleEncodeError(m)) && m@ == "delta overflow 64 bits"@),
            old(self)@.len() > 0 && i64::MIN <= value - old(self)@.last() <= i64::MAX && !(i64::MIN
                <= (value - old(self)@.last()) - last_delta(old(self)@) <= i64::MAX) ==> (r
                matches Err(ColumnarError::RleEncodeError(m)) && m@ == "delta of delta overflow 64 bits"@),
    {
        let ghost vs = self.values@;
        if self.head_num.is_none() {
            self.head_num = Some(value);
            self.prev_value = value;
            self.values = Ghost(Seq::empty().push(value));
            proof {
                assert(vs =~= Seq::<i64>::empty());
                assert(dod_stream(seq![value]) =~= dod_stream(vs));
            }
            return Ok(());
        }
        self.use_bit = true;
        let delta = match value.checked_sub(self.prev_value) {
            Some(d) => d,
            None => {
                return Err(ColumnarError::RleEncodeError("delta overflow 64 bits".to_owned()));
            },
        };
        let delta_of_delta = match delta.checked_sub(self.prev_delta) {
            Some(d) => d,
            None => {
                return Err(ColumnarError::RleEncodeError("delta of delta overflow 64 bits".to_owned()));
            },
        };
        self.prev_value = value;
        self.prev_delta = delta;
        let ghost new_vs = vs.push(value);
        proof {
            assert(new_vs.drop_last() =~= vs);
            assert(new_vs.last() == value);
            assert(dod_stream(new_vs) == dod_stream(vs) + dod_code(delta_of_delta as int));
        }
        let ghost code = dod_code(delta_of_delta as int);
        let ghost s0 = dod_stream(vs);
        proof {
            lemma_code_prefixes();
        }
        if delta_of_delta == 0 {
            proof {
                assert(fits(0u64, 1u64)) by (bit_vector);
            }
            self.write_bits(0, 1, Ghost(s0));
            proof {
                lemma_nat_bits_u64(0, 1);
                assert(nat_bits(0, 1) =~= seq![false]);
            }
        } else if -63 <= delta_of_delta && delta_of_delta <= 64 {
            let prefix: u64 = 0b10;
            let v: u64 = (delta_of_delta + 63) as u64;
            proof {
                assert(fits(prefix, 2u64)) by (bit_vector)
                    requires
                        prefix == 0b10,
                ;
                assert(fits(v, 7u64)) by (bit_vector)
                    requires
                        v <= 127,
                ;
            }
            self.write_bits(prefix, 2, Ghost(s0));
            self.write_bits(v, 7, Ghost(s0 + nat_bits(prefix as nat, 2)));
        } else if -255 <= delta_of_delta && delta_of_delta <= 256 {
            let prefix: u64 = 0b110;
            let v: u64 = (delta_of_delta + 255) as u64;
            proof {
                assert(fits(prefix, 3u64)) by (bit_vector)
                    requires
                        prefix == 0b110,
                ;
                assert(fits(v, 9u64)) by (bit_vector)
                    requires
                        v <= 511,
                ;
            }
            self.write_bits(prefix, 3, Ghost(s0));
            self.write_bits(v, 9, Ghost(s0 + nat_bits(prefix as nat, 3)));
        } else if -2047 <= delta_of_delta && delta_of_delta <= 2048 {
            let prefix: u64 = 0b1110;
            let v: u64 = (delta_of_delta + 2047) as u64;
            proof {
                assert(fits(prefix, 4u64)) by (bit_vector)
                    requires
                        prefix == 0b1110,
                ;
                assert(fits(v, 12u64)) by (bit_vector)
                    requires
                        v <= 4095,
                ;
            }
            self.write_bits(prefix, 4, Ghost(s0));
            self.write_bits(v, 12, Ghost(s0 + nat_bits(prefix as nat, 4)));
        } else if -(MAX_DELTA_OF_DELTA - 1) <= delta_of_delta && delta_of_delta <= MAX_DELTA_OF_DELTA {
            let prefix: u64 = 0b11110;
            let v: u64 = (delta_of_delta + MAX_DELTA_OF_DELTA - 1) as u64;
            proof {
                assert(fits(prefix, 5u64)) by (bit_vector)
                    requires
                        prefix == 0b11110,
                ;
                assert(fits(v, 21u64)) by (bit_vector)
                    requires
                        v <= 2097151,
                ;
            }
            self.write_bits(prefix, 5, Ghost(s0));
            self.write_bits(v, 21, Ghost(s0 + nat_bits(prefix as nat, 5)));
        } else {
            let prefix: u64 = 0b11111;
            proof {
                assert(fits(prefix, 5u64)) by (bit_vector)
                    requires
                        prefix == 0b11111,
                ;
            }
            self.write_bits(prefix, 5, Ghost(s0));
            self.write_bits(delta_of_delta as u64, 64, Ghost(s0 + nat_bits(prefix as nat, 5)));
        }
        self.values = Ghost(new_vs);
        proof {
            assert(dod_stream(new_vs) =~= dod_stream(vs) + code);
        }
        Ok(())
    }

    pub fn finish(self) -> (r: Result<Vec<u8>, ColumnarError>)
        requires
            self.wf(),
        ensures
            r is Ok,
            r matches Ok(bytes) ==> is_dod_encoding(bytes@, self@, self.use_bit()),
            self@.len() >= 2 ==> self.use_bit(),
            self@.len() == 0 ==> !self.use_bit(),
            dod_encodable(self@),
    {
        let ghost vs = self.values@;
        let ghost s = dod_stream(vs);
        let ghost words = self.bits@;
        let mut bytes: Vec<u8> = Vec::new();
        if let Some(head_num) = self.head_num {
            write_value(&mut bytes, &head_num)?;
        }
        let ghost head = bytes@;
        let used = (self.last_used_bit + 7) / 8;
        bytes.push(
            if self.last_used_bit % 8 == 0 && self.use_bit {
                8
            } else {
                self.last_used_bit % 8
            },
        );
        let ghost start = bytes@.len();
        let ghost prefix = bytes@;
        proof {
            assert(prefix =~= head.push(prefix[head.len() as int]));
        }
        let n = self.bits.len();
        let mut k: usize = 0;
        while k < n - 1
            invariant
                n == words.len(),
                words == self.bits@,
                n >= 1,
                k <= n - 1,
                start == prefix.len(),
                bytes@.len() == start + 8 * k,
                bytes@.subrange(0, start as int) == prefix,
                forall|q: int, b: int| 0 <= q < 8 * k && 0 <= b < 8 ==> #[trigger] bit8(bytes@[start + q], b as u8) == bit64(words[q / 8], (8 * (q % 8) + b) as u64),
            decreases n - 1 - k,
        {
            let ghost before = bytes@;
            push_word_bytes(&mut bytes, self.bits[k], 8);
            proof {
                assert(bytes@.subrange(0, start as int) =~= before.subrange(0, start as int));
                assert forall|q: int, b: int| 0 <= q < 8 * (k + 1) && 0 <= b < 8 implies #[trigger] bit8(bytes@[start + q], b as u8) == bit64(words[q / 8], (8 * (q % 8) + b) as u64) by {
                    if q < 8 * k {
                        assert(bytes@[start + q] == before[start + q]);
                    } else {
                        let m = q - 8 * k;
                        assert(bit8(bytes@[before.len() + m], b as u8) == bit64(words[k as int], (8 * m + b) as u64));
                    }
                }
            }
            k = k + 1;
        }
        let ghost before_last = bytes@;
        push_word_bytes(&mut bytes, self.bits[n - 1], used as usize);
        proof {
            let lub = self.last_used_bit as int;
            let body = bytes@.skip(start as int);
            assert(s.len() == 64 * (n - 1) + lub);
            assert((s.len() + 7) / 8 == 8 * (n - 1) + (lub + 7) / 8);
            assert(bytes@.subrange(0, head.len() as int) =~= head) by {
                assert(bytes@.subrange(0, head.len() as int) =~= before_last.subrange(0, start as int).subrange(0, head.len() as int));
            }
            assert(bytes@[head.len() as int] == before_last[head.len() as int]);
            assert(before_last.subrange(0, start as int)[head.len() as int] == before_last[head.len() as int]);
            assert(prefix[head.len() as int] == if self.last_used_bit % 8 == 0 && self.use_bit { 8u8 } else { self.last_used_bit % 8 });
            assert(head == if vs.len() > 0 { i64::spec_encode(vs[0]) } else { Seq::<u8>::empty() });
            assert(s.len() % 8 == lub % 8);
            assert forall|i: int| 0 <= i < 8 * body.len() implies #[trigger] bit8(body[i / 8], (i % 8) as u8) == (i < s.len() && s[i]) by {
                let q = i / 8;
                let b = i % 8;
                if q < 8 * (n - 1) {
                    assert(bytes@[start + q] == before_last[start + q]);
                    assert(bit8(before_last[start + q], b as u8) == bit64(words[q / 8], (8 * (q % 8) + b) as u64));
                    let k = q / 8;
                    let j = 8 * (q % 8) + b;
                    assert(bit64(words[k], j as u64) == (64 * k + j < s.len() && s[64 * k + j]));
                    assert(64 * k + j == i);
                } else {
                    let m = q - 8 * (n - 1);
                    assert(bit8(bytes@[before_last.len() + m], b as u8) == bit64(words[n - 1], (8 * m + b) as u64));
                    let j = 8 * m + b;
                    assert(bit64(words[n - 1], j as u64) == (64 * (n - 1) + j < s.len() && s[64 * (n - 1) + j]));
                }
            }
        }
        Ok(bytes)
    }

    /// Appends the low `count` bits of `value`, most significant first.
    fn write_bits(&mut self, value: u64, count: u8, Ghost(s): Ghost<Seq<bool>>)
        requires
            layout_ok(old(self).bits@, old(self).last_used_bit as nat, s),
            1 <= count <= 64,
            fits(value, count as u64),
        ensures
            layout_ok(final(self).bits@, final(self).last_used_bit as nat, s + nat_bits(value as nat, count as nat)),
            final(self).head_num == old(self).head_num,
            final(self).prev_value == old(self).prev_value,
            final(self).prev_delta == old(self).prev_delta,
            final(self).use_bit == old(self).use_bit,
            final(self).values == old(self).values,
    {
        let ghost nb = nat_bits(value as nat, count as nat);
        let ghost s2 = s + nb;
        let ghost old_bits = self.bits@;
        let ghost n = old_bits.len();
        let ghost lub = self.last_used_bit as int;
        proof {
            lemma_nat_bits_u64(value, count as u64);
        }
        if self.last_used_bit == 64 {
            let w = value << ((64 - count) as u64);
            self.bits.push(w);
            self.last_used_bit = count;
            proof {
                assert forall|k: int, j: int| 0 <= k < self.bits@.len() && 0 <= j < 64 implies #[trigger] bit64(self.bits@[k], j as u64) == (64 * k + j < s2.len() && s2[64 * k + j]) by {
                    if k < n {
                        assert(self.bits@[k] == old_bits[k]);
                        assert(bit64(old_bits[k], j as u64) == (64 * k + j < s.len() && s[64 * k + j]));
                    } else {
                        lemma_bit64_shl(value, (64 - count) as u64, j as u64);
                        if j < count {
                            assert(s2[64 * k + j] == nb[j]);
                        }
                    }
                }
            }
        } else {
            let remaining_bits = 64 - self.last_used_bit;
            let idx = self.bits.len() - 1;
            if count > remaining_bits {
                let bits_latter = count - remaining_bits;
                let former = self.bits[idx];
                let w1 = former ^ (value >> (bits_latter as u64));
                let w2 = value << ((64 - bits_latter) as u64);
                self.bits.set(idx, w1);
                self.bits.push(w2);
                self.last_used_bit = bits_latter;
                proof {
                    let l = bits_latter as int;
                    assert forall|k: int, j: int| 0 <= k < self.bits@.len() && 0 <= j < 64 implies #[trigger] bit64(self.bits@[k], j as u64) == (64 * k + j < s2.len() && s2[64 * k + j]) by {
                        if k < n - 1 {
                            assert(self.bits@[k] == old_bits[k]);
                            assert(bit64(old_bits[k], j as u64) == (64 * k + j < s.len() && s[64 * k + j]));
                        } else if k == n - 1 {
                            assert(bit64(old_bits[k], j as u64) == (64 * k + j < s.len() && s[64 * k + j]));
                            lemma_bit64_xor(former, value >> (bits_latter as u64), j as u64);
                            lemma_bit64_shr(value, bits_latter as u64, j as u64);
                            if j < lub {
                                if j >= l {
                                    lemma_bit64_fits(value, count as u64, (j - l) as u64);
                                }
                            } else {
                                assert(s2[64 * k + j] == nb[j - lub]);
                            }
                        } else {
                            lemma_bit64_shl(value, (64 - bits_latter) as u64, j as u64);
                            if j < l {
                                assert(s2[64 * k + j] == nb[(64 - lub) + j]);
                            }
                        }
                    }
                }
            } else {
                let last = self.bits[idx];
                let w1 = last ^ (value << ((remaining_bits - count) as u64));
                self.bits.set(idx, w1);
                self.last_used_bit = self.last_used_bit + count;
                proof {
                    let sh = (remaining_bits - count) as int;
                    assert forall|k: int, j: int| 0 <= k < self.bits@.len() && 0 <= j < 64 implies #[trigger] bit64(self.bits@[k], j as u64) == (64 * k + j < s2.len() && s2[64 * k + j]) by {
                        assert(bit64(old_bits[k], j as u64) == (64 * k + j < s.len() && s[64 * k + j]));
                        if k == n - 1 {
                            lemma_bit64_xor(last, value << ((remaining_bits - count) as u64), j as u64);
                            lemma_bit64_shl(value, (remaining_bits - count) as u64, j as u64);
                            if j < lub {
                                if j + sh < 64 {
                                    lemma_bit64_fits(value, count as u64, (j + sh) as u64);
                                }
                            } else if j < lub + count {
                                assert(s2[64 * k + j] == nb[j - lub]);
                            }
                        } else {
                            assert(self.bits@[k] == old_bits[k]);
                        }
                    }
                }
            }
        }
    }
}

impl Default for DeltaOfDeltaEncoder {
    fn default() -> (r: Self)
        ensures
            r.wf(),
            r@ == Seq::<i64>::empty(),
            !r.use_bit(),
    {
        Self::new()
    }
}

/// Appends the first `count` bytes of `w`, most significant first.
fn push_word_bytes(bytes: &mut Vec<u8>, w: u64, count: usize)
    requires
        count <= 8,
    ensures
        final(bytes)@.len() == old(bytes)@.len() + count,
        final(bytes)@.subrange(0, old(bytes)@.len() as int) == old(bytes)@,
        forall|m: int, b: int| 0 <= m < count && 0 <= b < 8 ==> #[trigger] bit8(final(bytes)@[old(bytes)@.len() + m], b as u8) == bit64(w, (8 * m + b) as u64),
{
    let mut m: usize = 0;
    while m < count
        invariant
            m <= count <= 8,
            bytes@.len() == old(bytes)@.len() + m,
            bytes@.subrange(0, old(bytes)@.len() as int) == old(bytes)@,
            forall|i: int, b: int| 0 <= i < m && 0 <= b < 8 ==> #[trigger] bit8(bytes@[old(bytes)@.len() + i], b as u8) == bit64(w, (8 * i + b) as u64),
        decreases count - m,
    {
        let byte = (w >> ((56 - 8 * m) as u64)) as u8;
        bytes.push(byte);
        proof {
            assert forall|b: int| 0 <= b < 8 implies #[trigger] bit8(byte, b as u8) == bit64(w, (8 * m + b) as u64) by {
                lemma_word_byte_bit(w, m as u64, b as u8);
            }
        }
        m = m + 1;
    }
}

/// The encoder takes every prefix of numbers that it takes.
pub proof fn lemma_encodable_prefix(vs: Seq<i64>, j: int)
    requires
        dod_encodable(vs),
        0 <= j <= vs.len(),
    ensures
        dod_encodable(vs.take(j)),
    decreases vs.len(),
{
    if j < vs.len() {
        lemma_encodable_prefix(vs.drop_last(), j);
        assert(vs.drop_last().take(j) =~= vs.take(j));
    } else {
        assert(vs.take(j) =~= vs);
    }
}

/// No code is longer than 69 bits.
pub proof fn lemma_stream_len(vs: Seq<i64>)
    ensures
        dod_stream(vs).len() <= 69 * vs.len(),
    decreases vs.len(),
{
    if vs.len() > 1 {
        lemma_stream_len(vs.drop_last());
        lemma_nat_bits_len();
    }
}

/// How many bits `nat_bits` gives.
proof fn lemma_nat_bits_len()
    ensures
        forall|v: nat, n: nat| #[trigger] nat_bits(v, n).len() == n,
{
    assert forall|v: nat, n: nat| #[trigger] nat_bits(v, n).len() == n by {
        lemma_nat_bits_len_of(v, n);
    }
}

proof fn lemma_nat_bits_len_of(v: nat, n: nat)
    ensures
        nat_bits(v, n).len() == n,
    decreases n,
{
    if n > 0 {
        lemma_nat_bits_len_of(v / 2, (n - 1) as nat);
    }
}

/// The bits of the width prefixes of the codes.
pub(crate) proof fn lemma_code_prefixes()
    ensures
        nat_bits(2, 2) == seq![true, false],
        nat_bits(6, 3) == seq![true, true, false],
        nat_bits(14, 4) == seq![true, true, true, false],
        nat_bits(30, 5) == seq![true, true, true, true, false],
        nat_bits(31, 5) == seq![true, true, true, true, true],
{
    reveal_with_fuel(nat_bits, 6);
    assert(nat_bits(2, 2) =~= seq![true, false]);
    assert(nat_bits(6, 3) =~= seq![true, true, false]);
    assert(nat_bits(14, 4) =~= seq![true, true, true, false]);
    assert(nat_bits(30, 5) =~= seq![true, true, true, true, false]);
    assert(nat_bits(31, 5) =~= seq![true, true, true, true, true]);
}

} // verus!
