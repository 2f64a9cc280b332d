//! Run-length encoding of any value: runs of two or more equal values are
//! written as a positive length and the value, other values are gathered
//! into literal runs written as a negative length and the values. Lengths are
//! postcard `isize`s.
use vstd::prelude::*;
use crate::codec::Rleable;
use crate::err::{count_too_large_message, ColumnarError};
use crate::strategy::{read_value, repeat, write_value, MAX_RLE_COUNT};
use crate::varint::taken;

verus! {

/// The maximal runs of equal values in `vs`: each value with the length of
/// its run.
pub open spec fn value_runs<T>(vs: Seq<T>) -> Seq<(T, nat)>
    decreases vs.len(),
{
    if vs.len() == 0 {
        seq![]
    } else {
        let prev = value_runs(vs.drop_last());
        let x = vs.last();
        if prev.len() > 0 && prev.last().0 == x {
            prev.update(prev.len() - 1, (x, prev.last().1 + 1))
        } else {
            prev.push((x, 1))
        }
    }
}

/// The values that runs stand for.
pub open spec fn flatten_runs<T>(rs: Seq<(T, nat)>) -> Seq<T>
    decreases rs.len(),
{
    if rs.len() == 0 {
        seq![]
    } else {
        flatten_runs(rs.drop_last()) + repeat(rs.last().0, rs.last().1)
    }
}

/// The bytes of values written one after another.
pub open spec fn encode_values<T: Rleable>(vs: Seq<T>) -> Seq<u8>
    decreases vs.len(),
{
    if vs.len() == 0 {
        seq![]
    } else {
        encode_values(vs.drop_last()) + T::spec_encode(vs.last())
    }
}

/// The bytes of a run of `n` copies of `v`.
pub open spec fn encode_run<T: Rleable>(v: T, n: nat) -> Seq<u8> {
    isize::spec_encode(n as isize) + T::spec_encode(v)
}

/// The bytes of a literal run: nothing for no values.
pub open spec fn encode_literal<T: Rleable>(p: Seq<T>) -> Seq<u8> {
    if p.len() == 0 {
        seq![]
    } else {
        isize::spec_encode((-(p.len() as int)) as isize) + encode_values(p)
    }
}

/// What the encoder has written for the runs `rs`, and the single values it
/// still holds back for a literal run.
pub open spec fn encode_state<T: Rleable>(rs: Seq<(T, nat)>) -> (Seq<u8>, Seq<T>)
    decreases rs.len(),
{
    if rs.len() == 0 {
        (seq![], seq![])
    } else {
        let (e, p) = encode_state(rs.drop_last());
        let (v, n) = rs.last();
        if n >= 2 {
            (e + encode_literal(p) + encode_run(v, n), seq![])
        } else {
            (e, p.push(v))
        }
    }
}

/// What the run-length encoder writes for `vs`.
pub open spec fn spec_rle_encode<T: Rleable>(vs: Seq<T>) -> Seq<u8> {
    let (e, p) = encode_state(value_runs(vs));
    e + encode_literal(p)
}

/// How a decoder stops: at the end of its bytes, on a run length beyond the
/// limit, on a run length of zero, or on bytes that do not hold a value.
#[derive(PartialEq, Eq, Structural)]
pub enum DecodeEnd {
    Done,
    RleError,
    ZeroCount,
    ValueError,
}

/// The values that the run-length decoder reads from `s`, and how it stops.
/// A run length that cannot be read ends the values; a `strict` reader
/// takes that for an error unless the bytes end inside the run length.
pub open spec fn decode_stream<T: Rleable>(s: Seq<u8>, strict: bool) -> (Seq<T>, DecodeEnd)
    decreases s.len(), 0nat,
{
    match isize::spec_decode(s) {
        None => if strict && !isize::spec_truncated(s) {
            (seq![], DecodeEnd::ValueError)
        } else {
            (seq![], DecodeEnd::Done)
        },
        Some((c, n)) => if !(1 <= n <= s.len()) {
            (seq![], DecodeEnd::Done)
        } else if c > MAX_RLE_COUNT || c < -MAX_RLE_COUNT {
            (seq![], DecodeEnd::RleError)
        } else if c > 0 {
            match T::spec_decode(s.skip(n as int)) {
                None => (seq![], DecodeEnd::ValueError),
                Some((v, m)) => if 1 <= m <= s.len() - n {
                    let (vs, e) = decode_stream::<T>(s.skip((n + m) as int), strict);
                    (repeat(v, c as nat) + vs, e)
                } else {
                    (seq![], DecodeEnd::Done)
                },
            }
        } else if c < 0 {
            literal_stream::<T>(s.skip(n as int), (-c) as nat, strict)
        } else {
            (seq![], DecodeEnd::ZeroCount)
        },
    }
}

/// The values of a literal run of `k` more values at the front of `s`,
/// followed by what the decoder reads after it.
pub open spec fn literal_stream<T: Rleable>(s: Seq<u8>, k: nat, strict: bool) -> (Seq<T>, DecodeEnd)
    decreases s.len(), 1nat,
{
    if k == 0 {
        decode_stream::<T>(s, strict)
    } else {
        match T::spec_decode(s) {
            None => (seq![], DecodeEnd::ValueError),
            Some((v, m)) => if 1 <= m <= s.len() {
                let (vs, e) = literal_stream::<T>(s.skip(m as int), (k - 1) as nat, strict);
                (seq![v] + vs, e)
            } else {
                (seq![], DecodeEnd::Done)
            },
        }
    }
}

/// What the encoder holds back: nothing, the values of a literal run with
/// the value after them, a single value, or a run of equal values.
#[allow(dead_code)]
enum RleState<T> {
    Empty,
    LiteralRun(T, Vec<T>),
    LoneVal(T),
    Run(T, usize),
}

/// Encodes values as runs and literal runs.
pub struct AnyRleEncoder<T> {
    ser: Vec<u8>,
    state: RleState<T>,
    values: Ghost<Seq<T>>,
}

impl<T: Rleable> View for AnyRleEncoder<T> {
    type V = Seq<T>;

    /// The values appended so far.
    closed spec fn view(&self) -> Seq<T> {
        self.values@
    }
}

impl<T: Rleable> AnyRleEncoder<T> {
    /// The encoder's state agrees with the values appended so far.
    pub closed spec fn wf(&self) -> bool {
        let rs = value_runs(self.values@);
        let (e, p) = encode_state(rs.drop_last());
        match self.state {
            RleState::Empty => self.values@.len() == 0 && self.ser@ == Seq::<u8>::empty(),
            RleState::LoneVal(x) => {
                &&& rs.len() > 0
                &&& rs.last() == (x, 1nat)
                &&& p.len() == 0
                &&& self.ser@ == e
            },
            RleState::Run(x, n) => {
                &&& rs.len() > 0
                &&& rs.last() == (x, n as nat)
                &&& n >= 2
                &&& self.ser@ == e + encode_literal(p)
            },
            RleState::LiteralRun(x, run) => {
                &&& rs.len() > 0
                &&& rs.last() == (x, 1nat)
                &&& run@ == p
                &&& p.len() > 0
                &&& self.ser@ == e
            },
        }
    }

    pub fn new() -> (r: Self)
        ensures
            r.wf(),
            r@ == Seq::<T>::empty(),
    {
        AnyRleEncoder { ser: Vec::new(), state: RleState::Empty, values: Ghost(Seq::empty()) }
    }

    pub fn append(&mut self, value: &T) -> (r: Result<(), ColumnarError>)
        requires
            old(self).wf(),
            old(self)@.len() < isize::MAX,
        ensures
            r is Ok,
            final(self).wf(),
            final(self)@ == old(self)@.push(*value),
    {
        self.append_value(value)
    }

    pub fn finish(self) -> (r: Result<Vec<u8>, ColumnarError>)
        requires
            self.wf(),
            self@.len() <= isize::MAX,
        ensures
            r is Ok,
            r matches Ok(bytes) ==> bytes@ == spec_rle_encode(self@),
    {
        let mut this = self;
        this.finish_in_place()
    }

    fn finish_in_place(&mut self) -> (r: Result<Vec<u8>, ColumnarError>)
        requires
            old(self).wf(),
            old(self)@.len() <= isize::MAX,
        ensures
            r is Ok,
            r matches Ok(bytes) ==> bytes@ == spec_rle_encode(old(self)@),
    {
        let ghost rs = value_runs(self.values@);
        proof {
            lemma_value_runs_len(self.values@);
            if rs.len() > 0 {
                lemma_encode_state_pending_len(rs.drop_last());
                assert(rs =~= rs.drop_last().push(rs.last()));
                assert(rs[rs.len() - 1] == rs.last());
            }
        }
        match self.take_state() {
            RleState::LoneVal(value) => {
                let mut single = Vec::new();
                single.push(value);
                self.flush_lit_run(single);
                proof {
                    assert(encode_state(rs).1 =~= seq![value]);
                    assert(self.ser@ == spec_rle_encode(old(self)@));
                }
            },
            RleState::Run(value, len) => {
                proof {
                    assert(rs.last() == (value, len as nat));
                    assert(1 <= rs[rs.len() - 1].1 <= old(self).values@.len());
                }
                self.flush_run(&value, len);
                proof {
                    assert(self.ser@ + encode_literal(Seq::<T>::empty()) =~= self.ser@);
                    assert(self.ser@ == spec_rle_encode(old(self)@));
                }
            },
            RleState::LiteralRun(last, mut run) => {
                run.push(last);
                self.flush_lit_run(run);
                proof {
                    assert(self.ser@ == spec_rle_encode(old(self)@));
                }
            },
            RleState::Empty => {
                proof {
                    assert(self.values@ =~= Seq::<T>::empty());
                    assert(Seq::<u8>::empty() + encode_literal(Seq::<T>::empty()) =~= Seq::<u8>::empty());
                }
            },
        };
        let mut out = Vec::new();
        std::mem::swap(&mut out, &mut self.ser);
        Ok(out)
    }

    fn append_value(&mut self, value: &T) -> (r: Result<(), ColumnarError>)
        requires
            old(self).wf(),
            old(self)@.len() < isize::MAX,
        ensures
            r is Ok,
            final(self).wf(),
            final(self)@ == old(self)@.push(*value),
    {
        let ghost old_values = self.values@;
        let ghost new_values = old_values.push(*value);
        let ghost rs = value_runs(old_values);
        proof {
            assert(new_values.drop_last() =~= old_values);
            lemma_value_runs_len(old_values);
        }
        let state = self.take_state();
        let new_state = match state {
            RleState::Empty => {
                proof {
                    assert(old_values =~= Seq::<T>::empty());
                    assert(value_runs(new_values) =~= seq![(*value, 1nat)]);
                    assert(value_runs(new_values).drop_last() =~= Seq::<(T, nat)>::empty());
                }
                RleState::LoneVal(value.duplicate())
            },
            RleState::LoneVal(other) => {
                if other.same(value) {
                    proof {
                        assert(value_runs(new_values).drop_last() =~= rs.drop_last());
                    }
                    RleState::Run(value.duplicate(), 2)
                } else {
                    let mut v = Vec::with_capacity(2);
                    v.push(other);
                    proof {
                        assert(value_runs(new_values).drop_last() =~= rs);
                        assert(rs =~= rs.drop_last().push(rs.last()));
                        assert(v@ =~= encode_state(rs).1);
                    }
                    RleState::LiteralRun(value.duplicate(), v)
                }
            },
            RleState::Run(other, len) => {
                if other.same(value) {
                    proof {
                        assert(value_runs(new_values).drop_last() =~= rs.drop_last());
                    }
                    RleState::Run(other, len + 1)
                } else {
                    self.flush_run(&other, len);
                    proof {
                        assert(value_runs(new_values).drop_last() =~= rs);
                        assert(rs =~= rs.drop_last().push(rs.last()));
                    }
                    RleState::LoneVal(value.duplicate())
                }
            },
            RleState::LiteralRun(last, mut run) => {
                if last.same(value) {
                    proof {
                        lemma_encode_state_pending_len(rs.drop_last());
                    }
                    self.flush_lit_run(run);
                    proof {
                        assert(value_runs(new_values).drop_last() =~= rs.drop_last());
                    }
                    RleState::Run(value.duplicate(), 2)
                } else {
                    run.push(last);
                    proof {
                        assert(value_runs(new_values).drop_last() =~= rs);
                        assert(rs =~= rs.drop_last().push(rs.last()));
                    }
                    RleState::LiteralRun(value.duplicate(), run)
                }
            },
        };
        self.state = new_state;
        self.values = Ghost(new_values);
        Ok(())
    }

    fn take_state(&mut self) -> (r: RleState<T>)
        ensures
            r == old(self).state,
            final(self).state is Empty,
            final(self).ser == old(self).ser,
            final(self).values == old(self).values,
    {
        let mut state = RleState::Empty;
        std::mem::swap(&mut self.state, &mut state);
        state
    }

    fn flush_run(&mut self, val: &T, len: usize)
        requires
            len <= isize::MAX,
        ensures
            final(self).ser@ == old(self).ser@ + encode_run(*val, len as nat),
            final(self).state == old(self).state,
            final(self).values == old(self).values,
    {
        self.encode_length(len as isize);
        self.encode_content(val);
        proof {
            assert(old(self).ser@ + isize::spec_encode(len as isize) + T::spec_encode(*val) =~= old(self).ser@ + encode_run(*val, len as nat));
        }
    }

    fn flush_lit_run(&mut self, run: Vec<T>)
        requires
            0 < run@.len() <= isize::MAX,
        ensures
            final(self).ser@ == old(self).ser@ + encode_literal(run@),
            final(self).state == old(self).state,
            final(self).values == old(self).values,
    {
        self.encode_length(-(run.len() as isize));
        let ghost start = self.ser@;
        let mut i: usize = 0;
        while i < run.len()
            invariant
                i <= run@.len(),
                self.ser@ == start + encode_values(run@.take(i as int)),
                self.state == old(self).state,
                self.values == old(self).values,
            decreases run@.len() - i,
        {
            self.encode_content(&run[i]);
            proof {
                assert(run@.take(i + 1).drop_last() =~= run@.take(i as int));
            }
            i = i + 1;
        }
        proof {
            assert(run@.take(run@.len() as int) =~= run@);
        }
    }

    fn encode_content(&mut self, val: &T)
        ensures
            final(self).ser@ == old(self).ser@ + T::spec_encode(*val),
            final(self).state == old(self).state,
            final(self).values == old(self).values,
    {
        let _ = write_value(&mut self.ser, val);
    }

    fn encode_length(&mut self, val: isize)
        ensures
            final(self).ser@ == old(self).ser@ + isize::spec_encode(val),
            final(self).state == old(self).state,
            final(self).values == old(self).values,
    {
        let _ = write_value(&mut self.ser, &val);
    }
}

impl<T: Rleable> Default for AnyRleEncoder<T> {
    fn default() -> (r: Self)
        ensures
            r.wf(),
            r@ == Seq::<T>::empty(),
    {
        Self::new()
    }
}

/// Decodes values from runs and literal runs.
pub struct AnyRleDecoder<'de, T> {
    de: &'de [u8],
    last_value: Option<T>,
    count: isize,
    literal: bool,
    strict: bool,
}

impl<'de, T: Rleable> AnyRleDecoder<'de, T> {
    /// The values still to come, and how the decoder stops after them.
    pub closed spec fn pending(&self) -> (Seq<T>, DecodeEnd) {
        let strict = self.strict;
        if self.count <= 0 {
            decode_stream::<T>(self.de@, strict)
        } else if self.literal {
            literal_stream::<T>(self.de@, self.count as nat, strict)
        } else {
            match self.last_value {
                Some(v) => (repeat(v, self.count as nat) + decode_stream::<T>(self.de@, strict).0, decode_stream::<T>(self.de@, strict).1),
                None => (seq![], DecodeEnd::Done),
            }
        }
    }

    /// The decoder's counters are in range.
    pub closed spec fn wf(&self) -> bool {
        &&& 0 <= self.count <= MAX_RLE_COUNT
    }

    /// No run is under way whose value could not be read. A decoder is
    /// steady when made, and stays so as long as its reads succeed; after a
    /// failed read of a run's value, [`Self::pending`] no longer describes
    /// what later calls give.
    pub closed spec fn steady(&self) -> bool {
        self.count > 0 && !self.literal ==> self.last_value is Some
    }

    /// The bytes not read yet.
    pub closed spec fn remaining(&self) -> Seq<u8> {
        self.de@
    }

    pub fn new(bytes: &'de [u8]) -> (r: Self)
        ensures
            r.wf(),
            r.steady(),
            r.pending() == decode_stream::<T>(bytes@, false),
            r.remaining() == bytes@,
    {
        AnyRleDecoder { de: bytes, last_value: None, count: 0, literal: false, strict: false }
    }

    /// A decoder that takes a run length that cannot be read, where the
    /// bytes do not end inside it, for an error.
    pub(crate) fn new_strict(bytes: &'de [u8]) -> (r: Self)
        ensures
            r.wf(),
            r.steady(),
            r.pending() == decode_stream::<T>(bytes@, true),
            r.remaining() == bytes@,
    {
        AnyRleDecoder { de: bytes, last_value: None, count: 0, literal: false, strict: true }
    }

    /// The next value: `Ok(None)` at the end, an error on a bad run length or
    /// on bytes that do not hold a value.
    pub fn try_next(&mut self) -> (r: Result<Option<T>, ColumnarError>)
        requires
            old(self).wf(),
        ensures
            final(self).wf(),
            old(self).pending().0.len() > 0 ==> r == Ok::<Option<T>, ColumnarError>(Some(old(self).pending().0[0]))
                && final(self).pending() == (old(self).pending().0.drop_first(), old(self).pending().1),
            old(self).pending().0.len() == 0 && old(self).pending().1 == DecodeEnd::Done ==> r == Ok::<Option<T>, ColumnarError>(None),
            old(self).pending().0.len() == 0 && old(self).pending().1 == DecodeEnd::RleError ==> (r matches Err(e) && e is RleDecodeError),
            old(self).pending().0.len() == 0 && old(self).pending().1 == DecodeEnd::ZeroCount ==> (r matches Err(
                ColumnarError::RleDecodeError(m),
            ) && m@ == "Invalid count"@),
            old(self).pending().0.len() == 0 && old(self).pending().1 == DecodeEnd::ValueError ==> (r matches Err(e) && e is SerializeError),
            old(self).steady() && r is Ok ==> final(self).steady(),
            old(self).steady() && old(self).pending().0.len() == 0 && old(self).pending().1 == DecodeEnd::Done
                ==> final(self).pending() == old(self).pending(),
    {
        let ghost p0 = self.pending();
        while self.count == 0
            invariant
                self.pending() == p0,
                p0 == old(self).pending(),
                self.wf(),
                old(self).steady() ==> self.steady(),
            decreases self.de@.len(),
        {
            let ghost s = self.de@;
            let (count, rest) = match isize::decode(self.de) {
                Ok(x) => x,
                Err(f) => {
                    if self.strict && !f.is_end() {
                        return Err(ColumnarError::SerializeError(f.into_error()));
                    }
                    return Ok(None);
                },
            };
            proof {
                isize::lemma_decode_len(s);
            }
            if count > MAX_RLE_COUNT as isize || count < -(MAX_RLE_COUNT as isize) {
                return Err(ColumnarError::RleDecodeError(count_too_large_message(self.count as i128)));
            }
            if count > 0 {
                self.count = count;
                let (v, rest2) = read_value::<T>(rest)?;
                proof {
                    T::lemma_decode_len(rest@);
                    assert(rest@ =~= s.skip(taken(s, rest@) as int));
                    assert(rest2@ =~= s.skip((taken(s, rest@) + taken(rest@, rest2@)) as int));
                }
                self.de = rest2;
                self.last_value = Some(v);
                self.literal = false;
            } else if count < 0 {
                proof {
                    assert(rest@ =~= s.skip(taken(s, rest@) as int));
                }
                self.de = rest;
                self.count = -count;
                self.literal = true;
            } else {
                return Err(ColumnarError::RleDecodeError("Invalid count".to_owned()));
            }
        }
        self.count = self.count - 1;
        if self.literal {
            let ghost s = self.de@;
            let (v, rest) = read_value::<T>(self.de)?;
            proof {
                T::lemma_decode_len(s);
                assert(rest@ =~= s.skip(taken(s, rest@) as int));
                let (vs, e) = literal_stream::<T>(rest@, self.count as nat, self.strict);
                assert(p0 == (seq![v] + vs, e));
                assert((seq![v] + vs).drop_first() =~= vs);
            }
            self.de = rest;
            Ok(Some(v))
        } else {
            match &self.last_value {
                Some(v) => {
                    let out = v.duplicate();
                    proof {
                        let (vs, e) = decode_stream::<T>(self.de@, self.strict);
                        let c = self.count as nat;
                        assert(repeat(out, c + 1) + vs =~= seq![out] + (repeat(out, c) + vs));
                        assert((seq![out] + (repeat(out, c) + vs)).drop_first() =~= repeat(out, c) + vs);
                        if c == 0 {
                            assert(repeat(out, 0) + vs =~= vs);
                        }
                    }
                    Ok(Some(out))
                },
                None => Ok(None),
            }
        }
    }

    /// All the values still to come; an error on a bad run length or on
    /// bytes that do not hold a value.
    pub fn decode(&mut self) -> (r: Result<Vec<T>, ColumnarError>)
        requires
            old(self).wf(),
        ensures
            r is Ok <==> old(self).pending().1 == DecodeEnd::Done,
            r matches Ok(v) ==> v@ == old(self).pending().0,
            r matches Err(e) ==> (old(self).pending().1 == DecodeEnd::RleError ==> e is RleDecodeError),
            r matches Err(e) ==> (old(self).pending().1 == DecodeEnd::ZeroCount ==> (e matches ColumnarError::RleDecodeError(m)
                && m@ == "Invalid count"@)),
            r matches Err(e) ==> (old(self).pending().1 == DecodeEnd::ValueError ==> e is SerializeError),
            old(self).steady() && r is Ok ==> final(self).steady() && final(self).pending() == (
                Seq::<T>::empty(),
                DecodeEnd::Done,
            ),
    {
        let mut values = Vec::new();
        let ghost p0 = self.pending();
        loop
            invariant
                values@ + self.pending().0 == p0.0,
                self.pending().1 == p0.1,
                p0 == old(self).pending(),
                self.wf(),
                old(self).steady() ==> self.steady(),
            decreases self.pending().0.len(),
        {
            let ghost before = self.pending();
            match self.try_next()? {
                Some(value) => {
                    values.push(value);
                    proof {
                        assert(values@ + self.pending().0 =~= p0.0) by {
                            assert(before.0 =~= seq![value] + before.0.drop_first());
                        }
                    }
                },
                None => {
                    proof {
                        assert(values@ + before.0 =~= values@);
                    }
                    return Ok(values);
                },
            }
        }
    }

    /// The bytes that the decoder has not read.
    pub fn finalize(self) -> (r: Result<&'de [u8], ColumnarError>)
        ensures
            r matches Ok(rest),
            r matches Ok(rest) ==> rest@ == self.remaining(),
    {
        Ok(self.de)
    }
}

/// No run and no literal run that the encoder writes for the runs `rs` is
/// longer than [`MAX_RLE_COUNT`] (the single values still held back aside).
pub open spec fn rle_runs_within_limit<T: Rleable>(rs: Seq<(T, nat)>) -> bool
    decreases rs.len(),
{
    if rs.len() == 0 {
        true
    } else {
        let n = rs.last().1;
        &&& rle_runs_within_limit(rs.drop_last())
        &&& n >= 2 ==> n <= MAX_RLE_COUNT && encode_state(rs.drop_last()).1.len() <= MAX_RLE_COUNT
    }
}

/// No run and no literal run that the encoder writes for `vs` is longer than
/// [`MAX_RLE_COUNT`].
pub open spec fn rle_within_limit<T: Rleable>(vs: Seq<T>) -> bool {
    &&& rle_runs_within_limit(value_runs(vs))
    &&& encode_state(value_runs(vs)).1.len() <= MAX_RLE_COUNT
}

/// Decoding what the run-length encoder wrote gives back the values, whenever
/// no run and no literal run is longer than [`MAX_RLE_COUNT`].
pub proof fn lemma_rle_roundtrip<T: Rleable>(vs: Seq<T>, strict: bool)
    requires
        rle_within_limit(vs),
    ensures
        decode_stream::<T>(spec_rle_encode(vs), strict) == (vs, DecodeEnd::Done),
{
    let rs = value_runs(vs);
    let (e, p) = encode_state(rs);
    lemma_value_runs_len(vs);
    lemma_flatten_value_runs(vs);
    assert(forall|i: int| 0 <= i < rs.len() ==> 1 <= #[trigger] rs[i].1);
    lemma_decode_state(rs, seq![], seq![], strict);
    lemma_decode_empty::<T>(strict);
    assert(p + Seq::<T>::empty() =~= p);
    assert(e + encode_literal(p) + Seq::<u8>::empty() =~= spec_rle_encode(vs));
    assert(vs + Seq::<T>::empty() + Seq::<T>::empty() =~= vs);
}

/// Nothing is read from no bytes.
proof fn lemma_decode_empty<T: Rleable>(strict: bool)
    ensures
        decode_stream::<T>(Seq::<u8>::empty(), strict) == (Seq::<T>::empty(), DecodeEnd::Done),
{
    isize::lemma_decode_len(Seq::<u8>::empty());
}

/// The decoder reads back what the encoder wrote for runs `rs`, with the
/// held-back values followed by `q` as one literal run, and then `t`.
#[verifier::spinoff_prover]
#[verifier::rlimit(60)]
proof fn lemma_decode_state<T: Rleable>(rs: Seq<(T, nat)>, q: Seq<T>, t: Seq<u8>, strict: bool)
    requires
        rle_runs_within_limit(rs),
        forall|i: int| 0 <= i < rs.len() ==> 1 <= #[trigger] rs[i].1,
        (encode_state(rs).1 + q).len() <= MAX_RLE_COUNT,
    ensures
        decode_stream::<T>(encode_state(rs).0 + encode_literal(encode_state(rs).1 + q) + t, strict)
            == (flatten_runs(rs) + q + decode_stream::<T>(t, strict).0, decode_stream::<T>(t, strict).1),
    decreases rs.len(),
{
    let dt = decode_stream::<T>(t, strict);
    if rs.len() == 0 {
        assert(Seq::<T>::empty() + q =~= q);
        lemma_decode_literal(q, t, strict);
        assert(Seq::<u8>::empty() + encode_literal(q) + t =~= encode_literal(q) + t);
        assert(Seq::<T>::empty() + q + dt.0 =~= q + dt.0);
    } else {
        let prev = rs.drop_last();
        let (e, p) = encode_state(prev);
        let (v, n) = rs.last();
        assert(rs[rs.len() - 1] == rs.last());
        assert forall|i: int| 0 <= i < prev.len() implies 1 <= #[trigger] prev[i].1 by {
            assert(prev[i] == rs[i]);
        }
        if n >= 2 {
            let t2 = encode_run(v, n) + encode_literal(q) + t;
            assert(p + Seq::<T>::empty() =~= p);
            lemma_decode_state(prev, seq![], t2, strict);
            lemma_decode_literal(q, t, strict);
            lemma_decode_run(v, n, encode_literal(q) + t, strict);
            assert(encode_run(v, n) + (encode_literal(q) + t) =~= t2);
            assert(Seq::<T>::empty() + q =~= q);
            assert(e + encode_literal(p) + encode_run(v, n) + encode_literal(q) + t =~= e + encode_literal(p + Seq::<T>::empty()) + t2);
            assert(flatten_runs(prev) + Seq::<T>::empty() + (repeat(v, n) + (q + dt.0)) =~= flatten_runs(rs) + q + dt.0);
        } else {
            assert(n == 1);
            let q2 = seq![v] + q;
            assert(p.push(v) + q =~= p + q2);
            lemma_decode_state(prev, q2, t, strict);
            assert(repeat(v, 1) =~= seq![v]);
            assert(flatten_runs(prev) + q2 + dt.0 =~= flatten_runs(rs) + q + dt.0);
        }
    }
}

/// A run is read back as its values.
proof fn lemma_decode_run<T: Rleable>(v: T, n: nat, t: Seq<u8>, strict: bool)
    requires
        1 <= n <= MAX_RLE_COUNT,
    ensures
        decode_stream::<T>(encode_run(v, n) + t, strict)
            == (repeat(v, n) + decode_stream::<T>(t, strict).0, decode_stream::<T>(t, strict).1),
{
    let a = isize::spec_encode(n as isize);
    let b = T::spec_encode(v);
    let s = encode_run(v, n) + t;
    isize::lemma_roundtrip(n as isize, b + t);
    T::lemma_roundtrip(v, t);
    assert(s =~= a + (b + t));
    assert(s.skip(a.len() as int) =~= b + t);
    assert(s.skip((a.len() + b.len()) as int) =~= t);
}

/// A literal run is read back as its values.
proof fn lemma_decode_literal<T: Rleable>(p: Seq<T>, t: Seq<u8>, strict: bool)
    requires
        p.len() <= MAX_RLE_COUNT,
    ensures
        decode_stream::<T>(encode_literal(p) + t, strict)
            == (p + decode_stream::<T>(t, strict).0, decode_stream::<T>(t, strict).1),
{
    if p.len() == 0 {
        assert(Seq::<u8>::empty() + t =~= t);
        assert(p + decode_stream::<T>(t, strict).0 =~= decode_stream::<T>(t, strict).0);
    } else {
        let c = (-(p.len() as int)) as isize;
        let a = isize::spec_encode(c);
        let s = encode_literal(p) + t;
        isize::lemma_roundtrip(c, encode_values(p) + t);
        assert(s =~= a + (encode_values(p) + t));
        assert(s.skip(a.len() as int) =~= encode_values(p) + t);
        lemma_literal_values(p, t, strict);
    }
}

/// The values of a literal run are read back one by one.
proof fn lemma_literal_values<T: Rleable>(p: Seq<T>, t: Seq<u8>, strict: bool)
    ensures
        literal_stream::<T>(encode_values(p) + t, p.len(), strict)
            == (p + decode_stream::<T>(t, strict).0, decode_stream::<T>(t, strict).1),
    decreases p.len(),
{
    if p.len() == 0 {
        assert(encode_values(p) + t =~= t);
        assert(p + decode_stream::<T>(t, strict).0 =~= decode_stream::<T>(t, strict).0);
    } else {
        let v = p[0];
        let rest = p.drop_first();
        assert(p =~= seq![v] + rest);
        lemma_encode_values_front(v, rest);
        let b = T::spec_encode(v);
        T::lemma_roundtrip(v, encode_values(rest) + t);
        let s = encode_values(p) + t;
        assert(s =~= b + (encode_values(rest) + t));
        assert(s.skip(b.len() as int) =~= encode_values(rest) + t);
        lemma_literal_values(rest, t, strict);
        assert(seq![v] + (rest + decode_stream::<T>(t, strict).0) =~= p + decode_stream::<T>(t, strict).0);
    }
}

/// The bytes of values split at the first value.
pub(crate) proof fn lemma_encode_values_front<T: Rleable>(v: T, vs: Seq<T>)
    ensures
        encode_values(seq![v] + vs) == T::spec_encode(v) + encode_values(vs),
    decreases vs.len(),
{
    if vs.len() == 0 {
        assert(seq![v] + vs =~= seq![v]);
        assert(seq![v].drop_last() =~= Seq::<T>::empty());
        assert(encode_values(Seq::<T>::empty()) == Seq::<u8>::empty());
        assert(encode_values(seq![v]) =~= Seq::<u8>::empty() + T::spec_encode(v));
        assert(T::spec_encode(v) + encode_values(vs) =~= T::spec_encode(v));
    } else {
        lemma_encode_values_front(v, vs.drop_last());
        assert((seq![v] + vs).drop_last() =~= seq![v] + vs.drop_last());
        assert((seq![v] + vs).last() == vs.last());
        assert(T::spec_encode(v) + encode_values(vs) =~= T::spec_encode(v) + encode_values(vs.drop_last()) + T::spec_encode(vs.last()));
    }
}

/// The runs of `vs` stand for `vs`.
proof fn lemma_flatten_value_runs<T>(vs: Seq<T>)
    ensures
        flatten_runs(value_runs(vs)) == vs,
        vs.len() > 0 ==> value_runs(vs).len() > 0 && value_runs(vs).last().0 == vs.last(),
    decreases vs.len(),
{
    if vs.len() > 0 {
        let prefix = vs.drop_last();
        lemma_flatten_value_runs(prefix);
        let prev = value_runs(prefix);
        let x = vs.last();
        if prev.len() > 0 && prev.last().0 == x {
            let n = prev.last().1;
            let rs = prev.update(prev.len() - 1, (x, n + 1));
            assert(rs.drop_last() =~= prev.drop_last());
            assert(repeat(x, n + 1) =~= repeat(x, n).push(x));
            assert(flatten_runs(rs) =~= flatten_runs(prev.drop_last()) + repeat(x, n).push(x));
            assert(flatten_runs(prev) == flatten_runs(prev.drop_last()) + repeat(x, n));
            assert(prefix.push(x) =~= vs);
        } else {
            let rs = prev.push((x, 1nat));
            assert(rs.drop_last() =~= prev);
            assert(repeat(x, 1) =~= seq![x]);
            assert(prefix + seq![x] =~= vs);
        }
    }
}

/// The values held back are no more than the runs.
proof fn lemma_encode_state_pending_len<T: Rleable>(rs: Seq<(T, nat)>)
    ensures
        encode_state(rs).1.len() <= rs.len(),
    decreases rs.len(),
{
    if rs.len() > 0 {
        lemma_encode_state_pending_len(rs.drop_last());
    }
}

/// A run is at most as long as the values.
proof fn lemma_value_runs_len<T>(vs: Seq<T>)
    ensures
        value_runs(vs).len() <= vs.len(),
        vs.len() > 0 ==> value_runs(vs).len() > 0,
        forall|i: int| 0 <= i < value_runs(vs).len() ==> 1 <= #[trigger] value_runs(vs)[i].1 <= vs.len(),
    decreases vs.len(),
{
    if vs.len() > 0 {
        lemma_value_runs_len(vs.drop_last());
    }
}

} // verus!
