//! Reading back delta-of-delta bit codes.
use vstd::prelude::*;
use crate::codec::{DeltaOfDeltable, Rleable};
use crate::err::{conversion_message, ColumnarError};
use crate::strategy::delta_of_delta::{
    dod_code, dod_encodable, dod_stream, is_dod_encoding, last_delta, lemma_code_prefixes, MAX_DELTA_OF_DELTA,
};
use crate::varint::taken;
use crate::strategy::bits::{
    bit64, bit8, byte_bits, fits, from_bits, lemma_append_byte_bits, lemma_from_nat_bits_u64,
    lemma_nat_bits_u64, lemma_read_byte_rest, lemma_read_in_byte, nat_bits,
};

verus! {

/// What reading `count` bits at bit `p` of `bits` gives, where the last byte
/// holds `lub` bits: `Some(None)` where the reader finds too few bits left,
/// `None` where it would index past the bytes.
pub open spec fn read_outcome(bits: Seq<u8>, lub: nat, p: nat, count: nat) -> Option<Option<nat>> {
    if p / 8 >= bits.len() {
        Some(None)
    } else if (bits.len() - 1) * 8 + lub < p + count {
        Some(None)
    } else if p + count > 8 * bits.len() {
        None
    } else {
        Some(Some(from_bits(byte_bits(bits).subrange(p as int, (p + count) as int))))
    }
}

/// The bit at `q`, where the reader can take it; `None` where taking it
/// fails.
pub open spec fn read_flag(bits: Seq<u8>, lub: nat, q: nat) -> Option<nat> {
    match read_outcome(bits, lub, q, 1) {
        Some(Some(x)) => Some(x),
        _ => None,
    }
}

/// The width and bias that the prefix read from bit `q` on announces, and
/// the bit where the number after it starts; `None` where a prefix bit
/// cannot be read.
pub open spec fn dod_width(bits: Seq<u8>, lub: nat, q: nat) -> Option<(nat, nat, int)> {
    match read_flag(bits, lub, q) {
        None => None,
        Some(b0) => if b0 == 0 {
            Some((q + 1, 7nat, 63int))
        } else {
            match read_flag(bits, lub, q + 1) {
                None => None,
                Some(b1) => if b1 == 0 {
                    Some((q + 2, 9nat, 255int))
                } else {
                    match read_flag(bits, lub, q + 2) {
                        None => None,
                        Some(b2) => if b2 == 0 {
                            Some((q + 3, 12nat, 2047int))
                        } else {
                            match read_flag(bits, lub, q + 3) {
                                None => None,
                                Some(b3) => if b3 == 0 {
                                    Some((q + 4, 21nat, MAX_DELTA_OF_DELTA - 1))
                                } else {
                                    Some((q + 4, 64nat, 0int))
                                },
                            }
                        },
                    }
                },
            }
        },
    }
}

/// `x` is an `i64`.
pub open spec fn in_i64(x: int) -> bool {
    i64::MIN <= x <= i64::MAX
}

/// The numbers read from bit `p` on, after the number `pv` whose difference
/// from the one before it is `pd`; and whether the reading breaks down
/// after them: the reader runs out of bits inside a code, indexes past the
/// bytes, or overflows `i64`.
pub open spec fn dod_tail(bits: Seq<u8>, lub: nat, p: nat, pv: i64, pd: i64) -> (Seq<i64>, bool)
    decreases 8 * bits.len() - p,
{
    match read_outcome(bits, lub, p, 1) {
        None => (seq![], true),
        Some(None) => (seq![], false),
        Some(Some(f)) => if f == 0 {
            if in_i64(pv + pd) {
                let r = dod_tail(bits, lub, p + 1, (pv + pd) as i64, pd);
                (seq![(pv + pd) as i64] + r.0, r.1)
            } else {
                (seq![], true)
            }
        } else {
            match dod_width(bits, lub, p + 1) {
                None => (seq![], true),
                Some((q, w, bias)) => match read_outcome(bits, lub, q, w) {
                    Some(Some(x)) => {
                        let nd = pd + ((x as i64) - bias);
                        if in_i64(nd) && in_i64(pv + nd) {
                            let r = dod_tail(bits, lub, q + w, (pv + nd) as i64, nd as i64);
                            (seq![(pv + nd) as i64] + r.0, r.1)
                        } else {
                            (seq![], true)
                        }
                    },
                    _ => (seq![], true),
                },
            }
        },
    }
}

/// The decoder can be made from `bytes`: fewer than two bytes, or a
/// postcard `i64` followed by at least one byte.
pub open spec fn dod_header_ok(bytes: Seq<u8>) -> bool {
    bytes.len() < 2 || (i64::spec_decode(bytes) matches Some((h, k)) && k < bytes.len())
}

/// The numbers that the delta-of-delta decoder reads from `bytes`, and
/// whether the reading breaks down after them: the first number as a postcard `i64`, then the
/// number of valid bits in the last byte, then the bit codes.
pub open spec fn spec_dod_decode(bytes: Seq<u8>) -> (Seq<i64>, bool) {
    if bytes.len() < 2 {
        (seq![], false)
    } else {
        match i64::spec_decode(bytes) {
            Some((h, k)) => if k < bytes.len() {
                let t = dod_tail(bytes.subrange(k + 1int, bytes.len() as int), bytes[k as int] as nat, 0, h, 0);
                (seq![h] + t.0, t.1)
            } else {
                (seq![], true)
            },
            None => (seq![], true),
        }
    }
}

/// A word that fits in `m` bits, whose last `m` bits are `t`, is the number
/// that `t` stands for.
proof fn lemma_word_value(a: u64, m: u64, t: Seq<bool>)
    requires
        m <= 64,
        fits(a, m),
        t.len() == m,
        forall|k: int| 0 <= k < m ==> #[trigger] bit64(a, (64 - m + k) as u64) == t[k],
    ensures
        a as nat == from_bits(t),
{
    lemma_nat_bits_u64(a, m);
    lemma_from_nat_bits_u64(a, m);
    assert(nat_bits(a as nat, m as nat) =~= t);
}

/// Reads numbers back from the bytes of a delta-of-delta encoding.
pub struct DeltaOfDeltaDecoder<'de, T> {
    bits: &'de [u8],
    head_num: Option<i64>,
    prev_value: i64,
    prev_delta: i64,
    index: usize,
    current_bits_index: u8,
    last_used_bit: u8,
    _t: std::marker::PhantomData<T>,
}

impl<'de, T: DeltaOfDeltable> DeltaOfDeltaDecoder<'de, T> {
    /// The bit the reader stands at.
    pub closed spec fn pos(&self) -> nat {
        (8 * self.index + self.current_bits_index) as nat
    }

    /// The bytes of bit codes.
    pub closed spec fn bit_bytes(&self) -> Seq<u8> {
        self.bits@
    }

    /// How many bits of the last byte of [`Self::bit_bytes`] are codes.
    pub closed spec fn bits_in_last(&self) -> nat {
        self.last_used_bit as nat
    }

    /// The first number, if it has not been given yet, the last number given
    /// and the difference before it.
    pub closed spec fn numbers(&self) -> (Option<i64>, i64, i64) {
        (self.head_num, self.prev_value, self.prev_delta)
    }

    /// The numbers still to come, and whether the reading breaks down after
    /// them.
    pub closed spec fn pending(&self) -> (Seq<i64>, bool) {
        let bits = self.bits@;
        let lub = self.last_used_bit as nat;
        match self.head_num {
            Some(h) => {
                let t = dod_tail(bits, lub, self.pos(), h, self.prev_delta);
                (seq![h] + t.0, t.1)
            },
            None => dod_tail(bits, lub, self.pos(), self.prev_value, self.prev_delta),
        }
    }

    /// The reader's position is within the bits, and the bit arithmetic
    /// cannot overflow.
    pub closed spec fn wf(&self) -> bool {
        let len = self.bits@.len();
        &&& self.current_bits_index < 8
        &&& self.pos() <= 8 * len
        &&& len >= 1 ==> self.pos() <= (len - 1) * 8 + self.last_used_bit
        &&& len == 0 ==> self.pos() == 0
    }

    /// A decoder of `bytes`; the header must be readable.
    pub fn new(bytes: &'de [u8]) -> (r: Self)
        requires
            dod_header_ok(bytes@),
        ensures
            r.wf(),
            r.pending() == spec_dod_decode(bytes@),
    {
        if bytes.len() < 2 {
            let r = DeltaOfDeltaDecoder {
                bits: bytes,
                head_num: None,
                prev_value: 0,
                prev_delta: 0,
                index: 0,
                current_bits_index: 0,
                last_used_bit: 0,
                _t: std::marker::PhantomData,
            };
            proof {
                reveal_with_fuel(dod_tail, 1);
            }
            return r;
        }
        let ghost s = bytes@;
        let (head_num, rest) = match i64::decode(bytes) {
            Ok(x) => x,
            Err(_) => {
                proof {
                    assert(false);
                }
                return DeltaOfDeltaDecoder {
                    bits: bytes,
                    head_num: None,
                    prev_value: 0,
                    prev_delta: 0,
                    index: 0,
                    current_bits_index: 0,
                    last_used_bit: 0,
                    _t: std::marker::PhantomData,
                };
            },
        };
        let last_used_bit = rest[0];
        let bits = vstd::slice::slice_subrange(rest, 1, rest.len());
        proof {
            let k = taken(s, rest@);
            assert(rest@ =~= s.skip(k as int));
            assert(bits@ =~= s.subrange(k + 1int, s.len() as int));
        }
        DeltaOfDeltaDecoder {
            bits,
            head_num: Some(head_num),
            prev_value: 0,
            prev_delta: 0,
            index: 0,
            current_bits_index: 0,
            last_used_bit,
            _t: std::marker::PhantomData,
        }
    }

    /// The next number: `Ok(None)` at the end, an error where `T` cannot
    /// hold it.
    pub(crate) fn try_next(&mut self) -> (r: Result<Option<T>, ColumnarError>)
        requires
            old(self).wf(),
            old(self).pending().0.len() > 0 || !old(self).pending().1,
        ensures
            final(self).wf(),
            old(self).pending().0.len() == 0 ==> r == Ok::<Option<T>, ColumnarError>(None),
            old(self).pending().0.len() == 0 ==> final(self).pending() == old(self).pending(),
            old(self).pending().0.len() > 0 ==> final(self).pending() == (old(self).pending().0.drop_first(), old(self).pending().1),
            old(self).pending().0.len() > 0 && T::spec_in_range(old(self).pending().0[0] as int) ==> (r matches Ok(Some(v)) && T::spec_value(v) == old(self).pending().0[0]),
            old(self).pending().0.len() > 0 && !T::spec_in_range(old(self).pending().0[0] as int) ==> (r matches Err(e) && e is RleDecodeError),
    {
        let ghost bits = self.bits@;
        let ghost lub = self.last_used_bit as nat;
        let ghost p0 = self.pending();
        if self.head_num.is_some() {
            self.prev_value = self.head_num.unwrap();
            self.head_num = None;
        } else {
            let ghost p = self.pos();
            let ghost pv = self.prev_value;
            let ghost pd = self.prev_delta;
            match self.read_bits(1) {
                None => {
                    return Ok(None);
                },
                Some(flag) => {
                    proof {
                        assert(read_outcome(bits, lub, p, 1) == Some(Some(flag as nat)));
                    }
                    if flag == 0 {
                        proof {
                            assert(in_i64(pv + pd));
                        }
                        self.prev_value = self.prev_value + self.prev_delta;
                    } else {
                        proof {
                            assert(dod_width(bits, lub, p + 1) is Some);
                        }
                        let (num_bits, bias): (u8, i64) = if self.read_flag() == 0 {
                            (7, 63)
                        } else if self.read_flag() == 0 {
                            (9, 255)
                        } else if self.read_flag() == 0 {
                            (12, 2047)
                        } else if self.read_flag() == 0 {
                            (21, MAX_DELTA_OF_DELTA - 1)
                        } else {
                            (64, 0)
                        };
                        let x = match self.read_bits(num_bits) {
                            Some(x) => x,
                            None => {
                                proof {
                                    assert(false);
                                }
                                return Ok(None);
                            },
                        };
                        proof {
                            if num_bits < 64 {
                                assert(x <= 0x1fffff) by (bit_vector)
                                    requires
                                        num_bits <= 21,
                                        fits(x, num_bits as u64),
                                ;
                            }
                        }
                        let delta_of_delta = x as i64 - bias;
                        self.prev_delta = self.prev_delta + delta_of_delta;
                        self.prev_value = self.prev_value + self.prev_delta;
                    }
                },
            }
        }
        match T::from_i64(self.prev_value) {
            Some(v) => Ok(Some(v)),
            None => Err(ColumnarError::RleDecodeError(conversion_message(self.prev_value as i128))),
        }
    }

    /// Whether reading `count` bits where the reader stands stays within
    /// the bytes.
    fn read_known(&self, count: u8) -> (r: bool)
        requires
            self.wf(),
            1 <= count <= 64,
        ensures
            r == read_outcome(self.bits@, self.last_used_bit as nat, self.pos(), count as nat) is Some,
    {
        if self.index >= self.bits.len() {
            proof {
                assert(self.pos() / 8 >= self.bits@.len()) by (nonlinear_arith)
                    requires
                        self.pos() == 8 * self.index + self.current_bits_index,
                        self.current_bits_index < 8,
                        self.index >= self.bits@.len(),
                ;
            }
            return true;
        }
        proof {
            assert(self.pos() / 8 < self.bits@.len()) by (nonlinear_arith)
                requires
                    self.pos() == 8 * self.index + self.current_bits_index,
                    self.current_bits_index < 8,
                    self.index < self.bits@.len(),
            ;
        }
        let total = ((self.bits.len() - 1) as u128) * 8 + self.last_used_bit as u128;
        let end = (self.index as u128) * 8 + self.current_bits_index as u128 + count as u128;
        let all = (self.bits.len() as u128) * 8;
        !(total >= end && end > all)
    }

    /// Reads one bit of a width prefix; `None` where it cannot be taken.
    fn flag_checked(&mut self) -> (r: Option<u64>)
        requires
            old(self).wf(),
        ensures
            final(self).wf(),
            final(self).bits == old(self).bits,
            final(self).last_used_bit == old(self).last_used_bit,
            final(self).head_num == old(self).head_num,
            final(self).prev_value == old(self).prev_value,
            final(self).prev_delta == old(self).prev_delta,
            read_flag(old(self).bits@, old(self).last_used_bit as nat, old(self).pos()) is None ==> r is None,
            read_flag(old(self).bits@, old(self).last_used_bit as nat, old(self).pos()) matches Some(b) ==> b <= 1
                && r == Some(b as u64) && final(self).pos() == old(self).pos() + 1,
    {
        if !self.read_known(1) {
            return None;
        }
        let r = self.read_bits(1);
        proof {
            if let Some(y) = r {
                assert(y <= 1) by (bit_vector)
                    requires
                        fits(y, 1u64),
                ;
            }
        }
        r
    }

    /// Reads a width prefix: the width and bias it announces; `None` where
    /// a bit of it cannot be taken.
    fn width_checked(&mut self) -> (r: Option<(u8, i64)>)
        requires
            old(self).wf(),
        ensures
            final(self).wf(),
            final(self).bits == old(self).bits,
            final(self).last_used_bit == old(self).last_used_bit,
            final(self).head_num == old(self).head_num,
            final(self).prev_value == old(self).prev_value,
            final(self).prev_delta == old(self).prev_delta,
            match dod_width(old(self).bits@, old(self).last_used_bit as nat, old(self).pos()) {
                None => r is None,
                Some((q, w, bias)) => r matches Some((w2, b2)) && w2 as nat == w && b2 as int == bias
                    && final(self).pos() == q && 1 <= w2 <= 64,
            },
    {
        let b0 = match self.flag_checked() {
            Some(b) => b,
            None => {
                return None;
            },
        };
        if b0 == 0 {
            return Some((7, 63));
        }
        let b1 = match self.flag_checked() {
            Some(b) => b,
            None => {
                return None;
            },
        };
        if b1 == 0 {
            return Some((9, 255));
        }
        let b2 = match self.flag_checked() {
            Some(b) => b,
            None => {
                return None;
            },
        };
        if b2 == 0 {
            return Some((12, 2047));
        }
        let b3 = match self.flag_checked() {
            Some(b) => b,
            None => {
                return None;
            },
        };
        if b3 == 0 {
            Some((21, MAX_DELTA_OF_DELTA - 1))
        } else {
            Some((64, 0))
        }
    }

    /// The next number as [`Self::try_next`] gives it; `None`, with nothing
    /// said of the decoder after it, where nothing is pending and the
    /// reading breaks down.
    #[verifier::spinoff_prover]
    pub(crate) fn try_step(&mut self) -> (r: Option<Result<Option<T>, ColumnarError>>)
        requires
            old(self).wf(),
        ensures
            r is None <==> old(self).pending().0.len() == 0 && old(self).pending().1,
            r is Some ==> final(self).wf(),
            old(self).pending().0.len() == 0 && !old(self).pending().1 ==> r == Some(Ok::<Option<T>, ColumnarError>(None)),
            old(self).pending().0.len() > 0 ==> final(self).pending() == (old(self).pending().0.drop_first(), old(self).pending().1),
            old(self).pending().0.len() > 0 && T::spec_in_range(old(self).pending().0[0] as int) ==> (r matches Some(Ok(Some(v))) && T::spec_value(v) == old(self).pending().0[0]),
            old(self).pending().0.len() > 0 && !T::spec_in_range(old(self).pending().0[0] as int) ==> (r matches Some(Err(e)) && e is RleDecodeError),
    {
        let ghost bits = self.bits@;
        let ghost lub = self.last_used_bit as nat;
        let ghost p0 = self.pending();
        if self.head_num.is_some() {
            self.prev_value = self.head_num.unwrap();
            self.head_num = None;
        } else {
            let ghost p = self.pos();
            let ghost pv = self.prev_value;
            let ghost pd = self.prev_delta;
            if !self.read_known(1) {
                return None;
            }
            match self.read_bits(1) {
                None => {
                    return Some(Ok(None));
                },
                Some(flag) => {
                    proof {
                        assert(read_outcome(bits, lub, p, 1) == Some(Some(flag as nat)));
                    }
                    if flag == 0 {
                        match self.prev_value.checked_add(self.prev_delta) {
                            Some(v) => {
                                self.prev_value = v;
                            },
                            None => {
                                return None;
                            },
                        }
                    } else {
                        let (num_bits, bias) = match self.width_checked() {
                            Some(w) => w,
                            None => {
                                return None;
                            },
                        };
                        if !self.read_known(num_bits) {
                            return None;
                        }
                        let x = match self.read_bits(num_bits) {
                            Some(x) => x,
                            None => {
                                return None;
                            },
                        };
                        proof {
                            if num_bits < 64 {
                                assert(x <= 0x1fffff) by (bit_vector)
                                    requires
                                        num_bits <= 21,
                                        fits(x, num_bits as u64),
                                ;
                            }
                        }
                        let delta_of_delta = x as i64 - bias;
                        let nd = match self.prev_delta.checked_add(delta_of_delta) {
                            Some(d) => d,
                            None => {
                                return None;
                            },
                        };
                        let nv = match self.prev_value.checked_add(nd) {
                            Some(v) => v,
                            None => {
                                return None;
                            },
                        };
                        self.prev_delta = nd;
                        self.prev_value = nv;
                    }
                },
            }
        }
        match T::from_i64(self.prev_value) {
            Some(v) => Some(Ok(Some(v))),
            None => Some(Err(ColumnarError::RleDecodeError(conversion_message(self.prev_value as i128)))),
        }
    }

    /// All the numbers still to come, each as a `T`; an error on the first
    /// number that `T` cannot hold. The reading must not fail before it.
    pub fn decode(&mut self) -> (r: Result<Vec<T>, ColumnarError>)
        requires
            old(self).wf(),
            !old(self).pending().1 || exists|i: int| 0 <= i < old(self).pending().0.len() && !T::spec_in_range(#[trigger] old(self).pending().0[i] as int),
        ensures
            r is Ok <==> forall|i: int| 0 <= i < old(self).pending().0.len() ==> T::spec_in_range(#[trigger] old(self).pending().0[i] as int),
            r matches Ok(v) ==> v@.len() == old(self).pending().0.len()
                && forall|i: int| 0 <= i < v@.len() ==> T::spec_value(#[trigger] v@[i]) == old(self).pending().0[i],
            r matches Err(e) ==> e is RleDecodeError,
            r is Ok ==> final(self).wf() && final(self).pending().0.len() == 0 && !final(self).pending().1,
    {
        let mut values: Vec<T> = Vec::new();
        let ghost p0 = self.pending();
        loop
            invariant
                self.wf(),
                p0 == old(self).pending(),
                !p0.1 || exists|i: int| 0 <= i < p0.0.len() && !T::spec_in_range(#[trigger] p0.0[i] as int),
                self.pending().1 == p0.1,
                values@.len() + self.pending().0.len() == p0.0.len(),
                forall|i: int| 0 <= i < values@.len() ==> T::spec_value(#[trigger] values@[i]) == p0.0[i],
                forall|i: int| 0 <= i < values@.len() ==> T::spec_in_range(#[trigger] p0.0[i] as int),
                forall|i: int| 0 <= i < self.pending().0.len() ==> #[trigger] self.pending().0[i] == p0.0[values@.len() + i],
            decreases self.pending().0.len(),
        {
            let ghost before = self.pending();
            let ghost k = values@.len();
            proof {
                if before.0.len() == 0 && before.1 {
                    let i = choose|i: int| 0 <= i < p0.0.len() && !T::spec_in_range(#[trigger] p0.0[i] as int);
                    assert(T::spec_in_range(p0.0[i] as int));
                }
            }
            match self.try_next() {
                Ok(Some(v)) => {
                    proof {
                        assert(before.0[0] == p0.0[k as int]);
                    }
                    values.push(v);
                    proof {
                        assert forall|i: int| 0 <= i < self.pending().0.len() implies #[trigger] self.pending().0[i] == p0.0[values@.len() + i] by {
                            assert(self.pending().0[i] == before.0[i + 1]);
                        }
                    }
                },
                Ok(None) => {
                    return Ok(values);
                },
                Err(e) => {
                    proof {
                        assert(before.0[0] == p0.0[k as int]);
                    }
                    return Err(e);
                },
            }
        }
    }

    /// Reads one bit of a width prefix; the bit must be there.
    fn read_flag(&mut self) -> (r: u64)
        requires
            old(self).wf(),
            read_flag(old(self).bits@, old(self).last_used_bit as nat, old(self).pos()) is Some,
        ensures
            final(self).wf(),
            final(self).bits == old(self).bits,
            final(self).last_used_bit == old(self).last_used_bit,
            final(self).head_num == old(self).head_num,
            final(self).prev_value == old(self).prev_value,
            final(self).prev_delta == old(self).prev_delta,
            read_flag(old(self).bits@, old(self).last_used_bit as nat, old(self).pos()) == Some(r as nat),
            final(self).pos() == old(self).pos() + 1,
    {
        match self.read_bits(1) {
            Some(b) => b,
            None => {
                proof {
                    assert(false);
                }
                0
            },
        }
    }

    /// Reads the next `count` bits as a number, most significant first;
    /// `None` where fewer than `count` bits are left.
    pub fn read_bits(&mut self, count: u8) -> (r: Option<u64>)
        requires
            old(self).wf(),
            1 <= count <= 64,
            read_outcome(old(self).bit_bytes(), old(self).bits_in_last(), old(self).pos(), count as nat) is Some,
        ensures
            final(self).wf(),
            final(self).bit_bytes() == old(self).bit_bytes(),
            final(self).bits_in_last() == old(self).bits_in_last(),
            final(self).numbers() == old(self).numbers(),
            read_outcome(old(self).bit_bytes(), old(self).bits_in_last(), old(self).pos(), count as nat) matches Some(o)
                && match o {
                    None => r is None && final(self).pos() == old(self).pos(),
                    Some(x) => (r matches Some(y) && y as nat == x && fits(y, count as u64)) && final(self).pos() == old(self).pos() + count,
                },
    {
        let ghost p = self.pos();
        let ghost b = byte_bits(self.bits@);
        if self.index >= self.bits.len() {
            return None;
        }
        let total_bits = ((self.bits.len() - 1) as u128) * 8 + self.last_used_bit as u128;
        let read_bits = (self.index as u128) * 8 + self.current_bits_index as u128;
        let remaining_bits = total_bits - read_bits;
        if remaining_bits < count as u128 {
            return None;
        }
        let current_byte_remaining = 8 - self.current_bits_index;
        if count <= current_byte_remaining {
            let current_index = self.index;
            let cur = self.current_bits_index;
            self.current_bits_index += count;
            if self.current_bits_index == 8 {
                self.index += 1;
                self.current_bits_index = 0;
            }
            let mask = u8::MAX >> (8 - count);
            let current_byte = self.bits[current_index];
            let after_shift = current_byte >> (current_byte_remaining - count);
            let ans = after_shift & mask;
            proof {
                let t = b.subrange(p as int, (p + count) as int);
                assert forall|k: int| 0 <= k < count implies #[trigger] bit64(ans as u64, (64 - count + k) as u64) == t[k] by {
                    lemma_read_in_byte(current_byte, cur, count, k as u64);
                    assert((p + k) / 8 == current_index && (p + k) % 8 == cur + k);
                }
                lemma_read_in_byte(current_byte, cur, count, 0);
                lemma_word_value(ans as u64, count as u64, t);
            }
            Some(ans as u64)
        } else {
            let cur = self.current_bits_index;
            let first = self.bits[self.index];
            let mut ans = (first & u8::MAX >> (8 - current_byte_remaining)) as u64;
            proof {
                assert forall|k: int| 0 <= k < 8 - cur implies #[trigger] bit64(ans, (64 - (8 - cur) + k) as u64) == b[p + k] by {
                    lemma_read_byte_rest(first, cur, k as u64);
                    assert((p + k) / 8 == self.index && (p + k) % 8 == cur + k);
                }
                lemma_read_byte_rest(first, cur, 0);
            }
            self.index += 1;
            self.current_bits_index = 0;
            let mut rest = count - current_byte_remaining;
            while rest > 8
                invariant
                    1 <= rest < count <= 64,
                    8 * self.index == p + (count - rest),
                    p + count <= 8 * self.bits@.len(),
                    self.bits == old(self).bits,
                    self.last_used_bit == old(self).last_used_bit,
                    self.head_num == old(self).head_num,
                    self.prev_value == old(self).prev_value,
                    self.prev_delta == old(self).prev_delta,
                    p + count <= (self.bits@.len() - 1) * 8 + self.last_used_bit,
                    self.current_bits_index == 0,
                    fits(ans, (count - rest) as u64),
                    forall|k: int| 0 <= k < count - rest ==> #[trigger] bit64(ans, (64 - (count - rest) + k) as u64) == b[p + k],
                    b == byte_bits(self.bits@),
                decreases rest,
            {
                let ghost m = (count - rest) as u64;
                let y = self.bits[self.index];
                let ghost a = ans;
                ans = (ans << 8) | y as u64;
                proof {
                    assert(y >> 0u8 == y) by (bit_vector);
                    assert forall|k: int| 0 <= k < m + 8 implies #[trigger] bit64(ans, (64 - (m + 8) + k) as u64) == b[p + k] by {
                        lemma_append_byte_bits(a, m, y, 8, k as u64);
                        if k >= m {
                            assert((p + k) / 8 == self.index && (p + k) % 8 == k - m);
                        }
                    }
                    lemma_append_byte_bits(a, m, y, 8, 0);
                }
                self.index += 1;
                rest -= 8;
            }
            let ghost m = (count - rest) as u64;
            let y = self.bits[self.index];
            let ghost a = ans;
            ans = (ans << rest) | (y >> (8 - rest)) as u64;
            proof {
                let t = b.subrange(p as int, (p + count) as int);
                assert forall|k: int| 0 <= k < count implies #[trigger] bit64(ans, (64 - count + k) as u64) == t[k] by {
                    lemma_append_byte_bits(a, m, y, rest as u64, k as u64);
                    if k >= m {
                        assert((p + k) / 8 == self.index && (p + k) % 8 == k - m);
                    }
                }
                lemma_append_byte_bits(a, m, y, rest as u64, 0);
                lemma_word_value(ans, count as u64, t);
            }
            self.current_bits_index += rest;
            if self.current_bits_index == 8 {
                self.index += 1;
                self.current_bits_index = 0;
            }
            Some(ans)
        }
    }
}

/// Reading `count` bits inside the stream `s` that the bytes hold gives the
/// number those bits stand for.
proof fn lemma_read_at(bits: Seq<u8>, lub: nat, s: Seq<bool>, p: nat, count: nat)
    requires
        holds_stream(bits, lub, s),
        1 <= count,
        p + count <= s.len(),
    ensures
        read_outcome(bits, lub, p, count) == Some(Some(from_bits(s.subrange(p as int, (p + count) as int)))),
{
    assert(byte_bits(bits).subrange(p as int, (p + count) as int) =~= s.subrange(p as int, (p + count) as int));
}

/// `bits` holds the stream `s`: the last byte holds `lub` of its bits, and
/// the bits agree with `s` up to its length.
pub open spec fn holds_stream(bits: Seq<u8>, lub: nat, s: Seq<bool>) -> bool {
    &&& bits.len() >= 1 ==> (bits.len() - 1) * 8 + lub == s.len()
    &&& bits.len() == 0 ==> s.len() == 0
    &&& s.len() <= 8 * bits.len()
    &&& forall|i: int| 0 <= i < s.len() ==> #[trigger] byte_bits(bits)[i] == s[i]
}

/// One bit stands for 0 or 1.
proof fn lemma_one_bit(s: Seq<bool>, q: int)
    requires
        0 <= q < s.len(),
    ensures
        from_bits(s.subrange(q, q + 1)) == if s[q] {
            1nat
        } else {
            0nat
        },
{
    let t = s.subrange(q, q + 1);
    assert(t.drop_last() =~= Seq::<bool>::empty());
    assert(from_bits(Seq::<bool>::empty()) == 0);
    assert(t.last() == s[q]);
}

/// The `w` bits after a prefix of `a` bits of `c`, where `c` is a prefix
/// followed by the low `w` bits of `x`, stand for `x`.
proof fn lemma_code_value(s: Seq<bool>, p: nat, c: Seq<bool>, a: nat, x: u64, w: u64)
    requires
        1 <= w <= 64,
        fits(x, w),
        c.len() == a + w,
        c.subrange(a as int, (a + w) as int) == nat_bits(x as nat, w as nat),
        p + c.len() <= s.len(),
        s.subrange(p as int, (p + c.len()) as int) == c,
    ensures
        from_bits(s.subrange((p + a) as int, (p + a + w) as int)) == x,
{
    lemma_from_nat_bits_u64(x, w);
    assert(s.subrange((p + a) as int, (p + a + w) as int) =~= c.subrange(a as int, (a + w) as int));
}

/// Reading the code of `d` where it stands in the stream gives back `d` and
/// ends where the code ends.
proof fn lemma_read_code(bits: Seq<u8>, lub: nat, s: Seq<bool>, p: nat, d: int)
    requires
        holds_stream(bits, lub, s),
        in_i64(d),
        p + dod_code(d).len() <= s.len(),
        s.subrange(p as int, (p + dod_code(d).len()) as int) == dod_code(d),
    ensures
        d == 0 ==> read_outcome(bits, lub, p, 1) == Some(Some(0nat)) && dod_code(d).len() == 1,
        d != 0 ==> read_outcome(bits, lub, p, 1) == Some(Some(1nat)),
        d != 0 ==> (dod_width(bits, lub, p + 1) matches Some((q, w, bias))
            && q + w == p + dod_code(d).len()
            && (read_outcome(bits, lub, q, w) matches Some(Some(x)) && (x as i64) - bias == d)),
{
    let c = dod_code(d);
    lemma_code_prefixes();
    assert forall|i: int| 0 <= i < c.len() implies #[trigger] s[p + i] == c[i] by {
        assert(s.subrange(p as int, (p + c.len()) as int)[i] == s[p + i]);
    }
    assert forall|i: nat| i < c.len() implies #[trigger] read_flag(bits, lub, p + i) == Some(if c[i as int] {
        1nat
    } else {
        0nat
    }) by {
        lemma_read_at(bits, lub, s, p + i, 1);
        lemma_one_bit(s, (p + i) as int);
    }
    if d == 0 {
        assert(read_flag(bits, lub, p + 0) == Some(0nat));
    } else if -63 <= d <= 64 {
        let x = (d + 63) as u64;
        lemma_nat_bits_u64(x, 7);
        assert(fits(x, 7)) by (bit_vector)
            requires
                x <= 127,
        ;
        assert(c =~= seq![true, false] + nat_bits(x as nat, 7));
        assert(c.subrange(2, 9) =~= nat_bits(x as nat, 7));
        assert(read_flag(bits, lub, p + 0) == Some(1nat));
        assert(read_flag(bits, lub, p + 1) == Some(0nat));
        lemma_code_value(s, p, c, 2, x, 7);
        lemma_read_at(bits, lub, s, p + 2, 7);
    } else if -255 <= d <= 256 {
        let x = (d + 255) as u64;
        lemma_nat_bits_u64(x, 9);
        assert(fits(x, 9)) by (bit_vector)
            requires
                x <= 511,
        ;
        assert(c =~= seq![true, true, false] + nat_bits(x as nat, 9));
        assert(c.subrange(3, 12) =~= nat_bits(x as nat, 9));
        assert(read_flag(bits, lub, p + 0) == Some(1nat));
        assert(read_flag(bits, lub, p + 1) == Some(1nat));
        assert(read_flag(bits, lub, p + 2) == Some(0nat));
        lemma_code_value(s, p, c, 3, x, 9);
        lemma_read_at(bits, lub, s, p + 3, 9);
    } else if -2047 <= d <= 2048 {
        let x = (d + 2047) as u64;
        lemma_nat_bits_u64(x, 12);
        assert(fits(x, 12)) by (bit_vector)
            requires
                x <= 4095,
        ;
        assert(c =~= seq![true, true, true, false] + nat_bits(x as nat, 12));
        assert(c.subrange(4, 16) =~= nat_bits(x as nat, 12));
        assert(read_flag(bits, lub, p + 0) == Some(1nat));
        assert(read_flag(bits, lub, p + 1) == Some(1nat));
        assert(read_flag(bits, lub, p + 2) == Some(1nat));
        assert(read_flag(bits, lub, p + 3) == Some(0nat));
        lemma_code_value(s, p, c, 4, x, 12);
        lemma_read_at(bits, lub, s, p + 4, 12);
    } else if -(MAX_DELTA_OF_DELTA - 1) <= d <= MAX_DELTA_OF_DELTA {
        let x = (d + MAX_DELTA_OF_DELTA - 1) as u64;
        lemma_nat_bits_u64(x, 21);
        assert(fits(x, 21)) by (bit_vector)
            requires
                x <= 2097151,
        ;
        assert(c =~= seq![true, true, true, true, false] + nat_bits(x as nat, 21));
        assert(c.subrange(5, 26) =~= nat_bits(x as nat, 21));
        assert(read_flag(bits, lub, p + 0) == Some(1nat));
        assert(read_flag(bits, lub, p + 1) == Some(1nat));
        assert(read_flag(bits, lub, p + 2) == Some(1nat));
        assert(read_flag(bits, lub, p + 3) == Some(1nat));
        assert(read_flag(bits, lub, p + 4) == Some(0nat));
        lemma_code_value(s, p, c, 5, x, 21);
        lemma_read_at(bits, lub, s, p + 5, 21);
    } else {
        let di = d as i64;
        let x = di as u64;
        lemma_nat_bits_u64(x, 64);
        assert(c =~= seq![true, true, true, true, true] + nat_bits(x as nat, 64));
        assert(c.subrange(5, 69) =~= nat_bits(x as nat, 64));
        assert(read_flag(bits, lub, p + 0) == Some(1nat));
        assert(read_flag(bits, lub, p + 1) == Some(1nat));
        assert(read_flag(bits, lub, p + 2) == Some(1nat));
        assert(read_flag(bits, lub, p + 3) == Some(1nat));
        assert(read_flag(bits, lub, p + 4) == Some(1nat));
        lemma_code_value(s, p, c, 5, x, 64);
        lemma_read_at(bits, lub, s, p + 5, 64);
        assert((x as nat) as i64 == di) by (bit_vector)
            requires
                x == di as u64,
        ;
    }
}

/// The bits written for the first `j` numbers start the bits written for
/// all of them.
proof fn lemma_stream_prefix(vs: Seq<i64>, j: int)
    requires
        0 <= j <= vs.len(),
    ensures
        dod_stream(vs.take(j)).len() <= dod_stream(vs).len(),
        dod_stream(vs).subrange(0, dod_stream(vs.take(j)).len() as int) == dod_stream(vs.take(j)),
    decreases vs.len(),
{
    if j == vs.len() {
        assert(vs.take(j) =~= vs);
        assert(dod_stream(vs).subrange(0, dod_stream(vs).len() as int) =~= dod_stream(vs));
    } else if vs.len() == 1 {
        assert(vs.take(j) =~= Seq::<i64>::empty());
        assert(dod_stream(vs).subrange(0, 0) =~= dod_stream(Seq::<i64>::empty()));
    } else {
        let prev = vs.drop_last();
        lemma_stream_prefix(prev, j);
        assert(prev.take(j) =~= vs.take(j));
        let a = dod_stream(prev);
        let b = dod_stream(vs.take(j));
        assert(dod_stream(vs) == a + dod_code((vs.last() - prev.last()) - last_delta(prev)));
        assert(dod_stream(vs).subrange(0, b.len() as int) =~= a.subrange(0, b.len() as int));
    }
}

/// The bits for the first `j + 1` numbers are those for the first `j`,
/// then the code of the next change of difference.
proof fn lemma_stream_step(vs: Seq<i64>, j: int)
    requires
        1 <= j < vs.len(),
    ensures
        dod_stream(vs.take(j + 1)) == dod_stream(vs.take(j)) + dod_code((vs[j] - vs[j - 1]) - last_delta(vs.take(j))),
        last_delta(vs.take(j + 1)) == vs[j] - vs[j - 1],
{
    let t = vs.take(j + 1);
    assert(t.drop_last() =~= vs.take(j));
    assert(t.last() == vs[j]);
    assert(vs.take(j).last() == vs[j - 1]);
}

/// Every step of numbers that the encoder takes stays within `i64`.
proof fn lemma_encodable_step(vs: Seq<i64>, j: int)
    requires
        dod_encodable(vs),
        1 <= j < vs.len(),
    ensures
        in_i64(vs[j] - vs[j - 1]),
        in_i64((vs[j] - vs[j - 1]) - last_delta(vs.take(j))),
        in_i64(last_delta(vs.take(j))),
    decreases vs.len(),
{
    let prev = vs.drop_last();
    if j < vs.len() - 1 {
        lemma_encodable_step(prev, j);
        assert(prev.take(j) =~= vs.take(j));
    } else {
        assert(prev =~= vs.take(j));
        if j >= 2 {
            lemma_encodable_step(prev, j - 1);
            lemma_stream_step(prev, j - 1);
            assert(prev.take(j) =~= prev);
        }
    }
}

/// One step of the reader: a code that it reads as the change of difference
/// `d` gives the next number, and the reading goes on after the code.
proof fn lemma_tail_step(bits: Seq<u8>, lub: nat, p: nat, pv: i64, pd: i64, d: int, n: nat)
    requires
        d == 0 ==> read_outcome(bits, lub, p, 1) == Some(Some(0nat)) && n == 1,
        d != 0 ==> read_outcome(bits, lub, p, 1) == Some(Some(1nat)),
        d != 0 ==> (dod_width(bits, lub, p + 1) matches Some((q, w, bias))
            && q + w == p + n
            && (read_outcome(bits, lub, q, w) matches Some(Some(x)) && (x as i64) - bias == d)),
        in_i64(pd + d),
        in_i64(pv + pd + d),
    ensures
        ({
            let r = dod_tail(bits, lub, p + n, (pv + pd + d) as i64, (pd + d) as i64);
            dod_tail(bits, lub, p, pv, pd) == (seq![(pv + pd + d) as i64] + r.0, r.1)
        }),
{
}

/// The reader, standing after the first `j` numbers, reads back the rest.
#[verifier::spinoff_prover]
proof fn lemma_tail_reads_back(vs: Seq<i64>, bits: Seq<u8>, lub: nat, j: int)
    requires
        dod_encodable(vs),
        holds_stream(bits, lub, dod_stream(vs)),
        1 <= j <= vs.len(),
    ensures
        in_i64(last_delta(vs.take(j))),
        dod_tail(bits, lub, dod_stream(vs.take(j)).len(), vs[j - 1], last_delta(vs.take(j)) as i64) == (vs.skip(j), false),
    decreases vs.len() - j,
{
    let s = dod_stream(vs);
    let p = dod_stream(vs.take(j)).len();
    lemma_stream_prefix(vs, j);
    if j >= 2 {
        lemma_encodable_step(vs, j - 1);
        lemma_stream_step(vs, j - 1);
    } else {
        assert(last_delta(vs.take(j)) == 0);
    }
    let ld = last_delta(vs.take(j));
    if j == vs.len() {
        assert(vs.take(j) =~= vs);
        assert(vs.skip(j) =~= Seq::<i64>::empty());
        assert(read_outcome(bits, lub, p, 1) == Some(None::<nat>));
    } else {
        lemma_encodable_step(vs, j);
        lemma_stream_step(vs, j);
        lemma_stream_prefix(vs, j + 1);
        let d = (vs[j] - vs[j - 1]) - ld;
        let c = dod_code(d);
        let p2 = dod_stream(vs.take(j + 1)).len();
        assert(p2 == p + c.len());
        assert(s.subrange(p as int, p2 as int) =~= c) by {
            assert(s.subrange(0, p2 as int).subrange(p as int, p2 as int) =~= s.subrange(p as int, p2 as int));
        }
        lemma_read_code(bits, lub, s, p, d);
        lemma_tail_step(bits, lub, p, vs[j - 1], ld as i64, d, c.len());
        lemma_tail_reads_back(vs, bits, lub, j + 1);
        assert(vs.skip(j) =~= seq![vs[j]] + vs.skip(j + 1));
    }
}

/// Decoding what the delta-of-delta encoder wrote gives back its numbers,
/// and the reading does not break down.
pub proof fn lemma_dod_roundtrip(vs: Seq<i64>, bytes: Seq<u8>, use_bit: bool)
    requires
        is_dod_encoding(bytes, vs, use_bit),
        dod_encodable(vs),
        vs.len() >= 2 ==> use_bit,
    ensures
        dod_header_ok(bytes),
        spec_dod_decode(bytes) == (vs, false),
{
    let s = dod_stream(vs);
    if vs.len() == 0 {
        assert(bytes.len() == 1);
        assert(vs =~= Seq::<i64>::empty());
    } else {
        let head = i64::spec_encode(vs[0]);
        let k = head.len();
        let rest = bytes.skip(k as int);
        i64::lemma_roundtrip(vs[0], rest);
        assert(bytes =~= head + rest);
        let body = bytes.subrange(k + 1int, bytes.len() as int);
        let lub = bytes[k as int] as nat;
        assert(body =~= bytes.skip(k + 1int));
        if vs.len() == 1 {
            assert(s =~= Seq::<bool>::empty());
        }
        assert(holds_stream(body, lub, s)) by {
            assert forall|i: int| 0 <= i < s.len() implies #[trigger] byte_bits(body)[i] == s[i] by {
                assert(bit8(body[i / 8], (i % 8) as u8) == (i < s.len() && s[i]));
            }
        }
        lemma_tail_reads_back(vs, body, lub, 1);
        assert(vs.take(1) =~= seq![vs[0]]);
        assert(dod_stream(vs.take(1)) =~= Seq::<bool>::empty());
        assert(seq![vs[0]] + vs.skip(1) =~= vs);
    }
}

} // verus!
