//! Run-length encoding of booleans: the lengths of the alternating runs,
//! starting with a run of `false` (of length 0 where the values start with
//! `true`), each written as a postcard `usize`.
use vstd::prelude::*;
use crate::codec::Rleable;
use crate::err::{count_too_large_message, ColumnarError};
use crate::strategy::{repeat, write_value, MAX_RLE_COUNT};

verus! {

/// The lengths of the alternating runs of `bs`, the first one a run of
/// `false`: a leading 0 stands where `bs` starts with `true`.
pub open spec fn bool_runs(bs: Seq<bool>) -> Seq<nat>
    decreases bs.len(),
{
    if bs.len() == 0 {
        seq![]
    } else if bs.len() == 1 {
        if bs[0] {
            seq![0, 1]
        } else {
            seq![1]
        }
    } else {
        let prev = bool_runs(bs.drop_last());
        if bs[bs.len() - 2] == bs.last() {
            prev.update(prev.len() - 1, prev.last() + 1)
        } else {
            prev.push(1)
        }
    }
}

/// The bytes of a sequence of counts, each a postcard `usize`.
pub open spec fn encode_counts(cs: Seq<nat>) -> Seq<u8>
    decreases cs.len(),
{
    if cs.len() == 0 {
        seq![]
    } else {
        encode_counts(cs.drop_last()) + usize::spec_encode(cs.last() as usize)
    }
}

/// What the boolean run-length encoder writes for `bs`.
pub open spec fn spec_bool_rle_encode(bs: Seq<bool>) -> Seq<u8> {
    encode_counts(bool_runs(bs))
}

/// The counts that reading `usize`s one after another takes from `s`, up to
/// the first read that fails.
pub open spec fn read_counts(s: Seq<u8>) -> Seq<nat>
    decreases s.len(),
{
    match usize::spec_decode(s) {
        Some((c, n)) => if 1 <= n <= s.len() {
            seq![c as nat] + read_counts(s.skip(n as int))
        } else {
            seq![]
        },
        None => seq![],
    }
}

/// The read that stops [`read_counts`] fails for another reason than the
/// bytes ending inside a count.
pub open spec fn counts_stop_bad(s: Seq<u8>) -> bool
    decreases s.len(),
{
    match usize::spec_decode(s) {
        Some((c, n)) => if 1 <= n <= s.len() {
            counts_stop_bad(s.skip(n as int))
        } else {
            false
        },
        None => !usize::spec_truncated(s),
    }
}

/// The values of the runs `cs`, the first one of value `b`, up to the first
/// count above [`MAX_RLE_COUNT`]; and whether such a count stops them.
pub open spec fn expand_runs(cs: Seq<nat>, b: bool) -> (Seq<bool>, bool)
    decreases cs.len(),
{
    if cs.len() == 0 {
        (seq![], false)
    } else if cs[0] > MAX_RLE_COUNT {
        (seq![], true)
    } else {
        let (vs, e) = expand_runs(cs.drop_first(), !b);
        (repeat(b, cs[0]) + vs, e)
    }
}

/// What the boolean run-length decoder reads from `bytes`: the values, and
/// whether it stops on a count above [`MAX_RLE_COUNT`] (an error).
pub open spec fn spec_bool_rle_decode(bytes: Seq<u8>) -> (Seq<bool>, bool) {
    expand_runs(read_counts(bytes), false)
}

/// What a decoder that takes a bad count for an error reads from `bytes`.
pub open spec fn spec_bool_rle_decode_strict(bytes: Seq<u8>) -> (Seq<bool>, bool) {
    let (vs, e) = spec_bool_rle_decode(bytes);
    (vs, e || counts_stop_bad(bytes))
}

/// Encodes booleans as the lengths of their alternating runs.
pub struct BoolRleEncoder {
    ser: Vec<u8>,
    last: bool,
    count: usize,
    values: Ghost<Seq<bool>>,
}

impl View for BoolRleEncoder {
    type V = Seq<bool>;

    /// The values appended so far.
    closed spec fn view(&self) -> Seq<bool> {
        self.values@
    }
}

impl BoolRleEncoder {
    /// The encoder's state agrees with the values appended so far.
    pub closed spec fn wf(&self) -> bool {
        let runs = bool_runs(self.values@);
        &&& self.count <= self.values@.len()
        &&& self.values@.len() == 0 ==> self.count == 0 && !self.last && self.ser@ == Seq::<u8>::empty()
        &&& self.values@.len() > 0 ==> {
            &&& self.last == self.values@.last()
            &&& runs.len() > 0
            &&& runs.last() == self.count
            &&& self.ser@ == encode_counts(runs.drop_last())
        }
    }

    pub fn new() -> (r: Self)
        ensures
            r.wf(),
            r@ == Seq::<bool>::empty(),
    {
        BoolRleEncoder { ser: Vec::new(), last: false, count: 0, values: Ghost(Seq::empty()) }
    }

    pub fn append(&mut self, value: bool) -> (r: Result<(), ColumnarError>)
        requires
            old(self).wf(),
            old(self)@.len() < usize::MAX,
        ensures
            r is Ok,
            final(self).wf(),
            final(self)@ == old(self)@.push(value),
    {
        let ghost old_values = self.values@;
        let ghost new_values = old_values.push(value);
        proof {
            assert(new_values.drop_last() =~= old_values);
        }
        if value == self.last {
            self.count = self.count + 1;
        } else {
            write_value(&mut self.ser, &self.count)?;
            proof {
                if old_values.len() > 0 {
                    let runs = bool_runs(old_values);
                    assert(runs.drop_last().push(runs.last()) =~= runs);
                } else {
                    assert(seq![0nat].drop_last() =~= Seq::<nat>::empty());
                }
            }
            self.last = value;
            self.count = 1;
        }
        self.values = Ghost(new_values);
        proof {
            let runs = bool_runs(old_values);
            if old_values.len() > 0 && value == old_values.last() {
                assert(runs.update(runs.len() - 1, runs.last() + 1).drop_last() =~= runs.drop_last());
            }
            if old_values.len() > 0 && value != old_values.last() {
                assert(runs.push(1).drop_last() =~= runs);
            }
            if old_values.len() == 0 && value {
                assert(seq![0nat, 1].drop_last() =~= seq![0nat]);
                assert(encode_counts(seq![0nat]) =~= usize::spec_encode(0usize)) by {
                    assert(seq![0nat].drop_last() =~= Seq::<nat>::empty());
                    assert(encode_counts(Seq::<nat>::empty()) =~= Seq::<u8>::empty());
                    assert(Seq::<u8>::empty() + usize::spec_encode(0usize) =~= usize::spec_encode(0usize));
                }
            }
            if old_values.len() == 0 && !value {
                assert(seq![1nat].drop_last() =~= Seq::<nat>::empty());
            }
        }
        Ok(())
    }

    pub fn finish(self) -> (r: Result<Vec<u8>, ColumnarError>)
        requires
            self.wf(),
        ensures
            r is Ok,
            r matches Ok(bytes) ==> bytes@ == spec_bool_rle_encode(self@),
    {
        let mut ser = self.ser;
        if self.count > 0 {
            write_value(&mut ser, &self.count)?;
            proof {
                let runs = bool_runs(self.values@);
                assert(runs.drop_last().push(runs.last()) =~= runs);
            }
        } else {
            proof {
                if self.values@.len() > 0 {
                    lemma_bool_runs_last_positive(self.values@);
                }
            }
        }
        Ok(ser)
    }
}

impl Default for BoolRleEncoder {
    fn default() -> (r: Self)
        ensures
            r.wf(),
            r@ == Seq::<bool>::empty(),
    {
        Self::new()
    }
}

/// Decodes booleans from the lengths of their alternating runs.
pub struct BoolRleDecoder<'de> {
    de: &'de [u8],
    last_value: bool,
    count: usize,
    strict: bool,
}

impl<'de> BoolRleDecoder<'de> {
    /// The values still to come, and whether a count above
    /// [`MAX_RLE_COUNT`] stops them (an error).
    pub closed spec fn pending(&self) -> (Seq<bool>, bool) {
        let (vs, e) = expand_runs(read_counts(self.de@), !self.last_value);
        (repeat(self.last_value, self.count as nat) + vs, e || (self.strict && counts_stop_bad(self.de@)))
    }

    /// The decoder takes a count that cannot be read, where the bytes do not
    /// end inside it, for an error.
    pub closed spec fn is_strict(&self) -> bool {
        self.strict
    }

    /// The bytes not read yet.
    pub closed spec fn remaining(&self) -> Seq<u8> {
        self.de@
    }

    pub fn new(bytes: &'de [u8]) -> (r: Self)
        ensures
            r.pending() == spec_bool_rle_decode(bytes@),
            r.remaining() == bytes@,
            !r.is_strict(),
    {
        let r = BoolRleDecoder { de: bytes, last_value: true, count: 0, strict: false };
        proof {
            assert(repeat(true, 0) + spec_bool_rle_decode(bytes@).0 =~= spec_bool_rle_decode(bytes@).0);
        }
        r
    }

    /// A decoder that takes a count that cannot be read, where the bytes do
    /// not end inside it, for an error.
    pub(crate) fn new_strict(bytes: &'de [u8]) -> (r: Self)
        ensures
            r.pending() == spec_bool_rle_decode_strict(bytes@),
            r.remaining() == bytes@,
            r.is_strict(),
    {
        let r = BoolRleDecoder { de: bytes, last_value: true, count: 0, strict: true };
        proof {
            assert(repeat(true, 0) + spec_bool_rle_decode(bytes@).0 =~= spec_bool_rle_decode(bytes@).0);
        }
        r
    }

    /// The next value: `Ok(None)` at the end, an error on a count above
    /// [`MAX_RLE_COUNT`].
    pub fn try_next(&mut self) -> (r: Result<Option<bool>, ColumnarError>)
        ensures
            old(self).pending().0.len() > 0 ==> r == Ok::<Option<bool>, ColumnarError>(Some(old(self).pending().0[0]))
                && final(self).pending() == (old(self).pending().0.drop_first(), old(self).pending().1),
            old(self).pending().0.len() == 0 && !old(self).pending().1 ==> r == Ok::<Option<bool>, ColumnarError>(None),
            old(self).pending().0.len() == 0 && !old(self).pending().1 ==> final(self).pending() == old(self).pending(),
            old(self).pending().0.len() == 0 && old(self).pending().1 ==> (r matches Err(e)
                && (e is RleDecodeError || (old(self).is_strict() && e is SerializeError))),
            final(self).is_strict() == old(self).is_strict(),
    {
        let ghost p0 = self.pending();
        while self.count == 0
            invariant
                self.pending() == p0,
                p0 == old(self).pending(),
                self.strict == old(self).strict,
            decreases self.de@.len(),
        {
            let ghost old_de = self.de@;
            let ghost last = self.last_value;
            proof {
                assert(repeat(last, 0) + expand_runs(read_counts(old_de), !last).0 =~= expand_runs(read_counts(old_de), !last).0);
            }
            let (count, rest) = match usize::decode(self.de) {
                Ok(x) => x,
                Err(f) => {
                    proof {
                        assert(read_counts(old_de) =~= Seq::<nat>::empty());
                        assert(p0.0 =~= Seq::<bool>::empty());
                    }
                    if self.strict && !f.is_end() {
                        return Err(ColumnarError::SerializeError(f.into_error()));
                    }
                    return Ok(None);
                },
            };
            proof {
                usize::lemma_decode_len(old_de);
                assert(read_counts(old_de) =~= seq![count as nat] + read_counts(rest@));
                assert((seq![count as nat] + read_counts(rest@)).drop_first() =~= read_counts(rest@));
            }
            self.de = rest;
            self.count = count;
            if self.count > MAX_RLE_COUNT {
                proof {
                    assert(read_counts(old_de)[0] == count as nat);
                    assert(p0.0 =~= Seq::<bool>::empty());
                }
                return Err(ColumnarError::RleDecodeError(count_too_large_message(self.count as i128)));
            }
            self.last_value = !self.last_value;
        }
        let ghost before = self.pending();
        self.count = self.count - 1;
        proof {
            let (vs, e) = expand_runs(read_counts(self.de@), !self.last_value);
            let c = self.count as nat;
            assert(repeat(self.last_value, c + 1) + vs =~= seq![self.last_value] + (repeat(self.last_value, c) + vs));
            assert((seq![self.last_value] + (repeat(self.last_value, c) + vs)).drop_first() =~= repeat(self.last_value, c) + vs);
        }
        Ok(Some(self.last_value))
    }

    /// All the values still to come; an error on a count above
    /// [`MAX_RLE_COUNT`].
    pub fn decode(&mut self) -> (r: Result<Vec<bool>, ColumnarError>)
        ensures
            r is Ok <==> !old(self).pending().1,
            r matches Ok(v) ==> v@ == old(self).pending().0,
            r matches Err(e) ==> e is RleDecodeError || (old(self).is_strict() && e is SerializeError),
            r is Ok ==> final(self).pending().0.len() == 0 && !final(self).pending().1,
    {
        let mut values = Vec::new();
        let ghost p0 = self.pending();
        loop
            invariant
                values@ + self.pending().0 == p0.0,
                self.pending().1 == p0.1,
                p0 == old(self).pending(),
                self.is_strict() == old(self).is_strict(),
            decreases self.pending().0.len(),
        {
            let ghost before = self.pending();
            match self.try_next()? {
                Some(value) => {
                    values.push(value);
                    proof {
                        assert(values@ + self.pending().0 =~= p0.0) by {
                            assert(before.0 =~= seq![value] + before.0.drop_first());
                        }
                    }
                },
                None => {
                    proof {
                        assert(values@ + before.0 =~= values@);
                    }
                    return Ok(values);
                },
            }
        }
    }

    /// The bytes that the decoder has not read.
    pub fn finalize(self) -> (r: Result<&'de [u8], ColumnarError>)
        ensures
            r matches Ok(rest),
            r matches Ok(rest) ==> rest@ == self.remaining(),
    {
        Ok(self.de)
    }
}

/// No run is longer than the decoders accept.
pub open spec fn runs_within_limit(cs: Seq<nat>) -> bool {
    forall|i: int| 0 <= i < cs.len() ==> #[trigger] cs[i] <= MAX_RLE_COUNT
}

/// The value of run `k` when run 0 has value `b`.
pub open spec fn alternate(b: bool, k: nat) -> bool {
    if k % 2 == 0 {
        b
    } else {
        !b
    }
}

/// Decoding what the encoder wrote gives back the booleans, whenever no run
/// is longer than [`MAX_RLE_COUNT`].
pub proof fn lemma_bool_rle_roundtrip(bs: Seq<bool>)
    requires
        runs_within_limit(bool_runs(bs)),
    ensures
        spec_bool_rle_decode(spec_bool_rle_encode(bs)) == (bs, false),
{
    lemma_bool_runs_expand(bs);
    lemma_read_encode_counts(bool_runs(bs), seq![]);
    assert(encode_counts(bool_runs(bs)) + Seq::<u8>::empty() =~= encode_counts(bool_runs(bs)));
    assert(read_counts(Seq::<u8>::empty()) =~= Seq::<nat>::empty());
    assert(bool_runs(bs) + Seq::<nat>::empty() =~= bool_runs(bs));
}

/// The strict decoder, too, reads back what the encoder wrote.
pub proof fn lemma_bool_rle_roundtrip_strict(bs: Seq<bool>)
    requires
        runs_within_limit(bool_runs(bs)),
    ensures
        spec_bool_rle_decode_strict(spec_bool_rle_encode(bs)) == (bs, false),
{
    lemma_bool_rle_roundtrip(bs);
    lemma_bool_runs_expand(bs);
    lemma_stop_encode_counts(bool_runs(bs), seq![]);
    assert(encode_counts(bool_runs(bs)) + Seq::<u8>::empty() =~= encode_counts(bool_runs(bs)));
}

/// The reads after counts written one after another stop as they would
/// after them.
proof fn lemma_stop_encode_counts(cs: Seq<nat>, t: Seq<u8>)
    requires
        forall|i: int| 0 <= i < cs.len() ==> #[trigger] cs[i] <= usize::MAX,
    ensures
        counts_stop_bad(encode_counts(cs) + t) == counts_stop_bad(t),
    decreases cs.len(),
{
    if cs.len() == 0 {
        assert(encode_counts(cs) + t =~= t);
    } else {
        let c = cs[0];
        let tail = cs.drop_first();
        lemma_encode_counts_front(c, tail);
        assert(cs =~= seq![c] + tail);
        let e = usize::spec_encode(c as usize);
        usize::lemma_roundtrip(c as usize, encode_counts(tail) + t);
        let s = encode_counts(cs) + t;
        assert(s =~= e + (encode_counts(tail) + t));
        assert(s.skip(e.len() as int) =~= encode_counts(tail) + t);
        lemma_stop_encode_counts(tail, t);
    }
}

/// Counts written one after another are read back one after another.
proof fn lemma_read_encode_counts(cs: Seq<nat>, t: Seq<u8>)
    requires
        forall|i: int| 0 <= i < cs.len() ==> #[trigger] cs[i] <= usize::MAX,
    ensures
        read_counts(encode_counts(cs) + t) == cs + read_counts(t),
    decreases cs.len(),
{
    if cs.len() == 0 {
        assert(encode_counts(cs) + t =~= t);
        assert(cs + read_counts(t) =~= read_counts(t));
    } else {
        let c = cs[0];
        let tail = cs.drop_first();
        lemma_encode_counts_front(c, tail);
        assert(cs =~= seq![c] + tail);
        let e = usize::spec_encode(c as usize);
        usize::lemma_roundtrip(c as usize, encode_counts(tail) + t);
        let s = encode_counts(cs) + t;
        assert(s =~= e + (encode_counts(tail) + t));
        assert(s.skip(e.len() as int) =~= encode_counts(tail) + t);
        lemma_read_encode_counts(tail, t);
        assert(cs + read_counts(t) =~= seq![c] + (tail + read_counts(t)));
    }
}

/// The bytes of counts split at the first count.
proof fn lemma_encode_counts_front(c: nat, cs: Seq<nat>)
    ensures
        encode_counts(seq![c] + cs) == usize::spec_encode(c as usize) + encode_counts(cs),
    decreases cs.len(),
{
    if cs.len() == 0 {
        assert(seq![c] + cs =~= seq![c]);
        assert(seq![c].drop_last() =~= Seq::<nat>::empty());
        assert(seq![c].last() == c);
        assert(encode_counts(Seq::<nat>::empty()) == Seq::<u8>::empty());
        assert(encode_counts(seq![c]) =~= Seq::<u8>::empty() + usize::spec_encode(c as usize));
        assert(usize::spec_encode(c as usize) + encode_counts(cs) =~= usize::spec_encode(c as usize));
    } else {
        lemma_encode_counts_front(c, cs.drop_last());
        assert((seq![c] + cs).drop_last() =~= seq![c] + cs.drop_last());
        assert((seq![c] + cs).last() == cs.last());
        assert(usize::spec_encode(c as usize) + encode_counts(cs) =~= usize::spec_encode(c as usize) + encode_counts(cs.drop_last()) + usize::spec_encode(cs.last() as usize));
    }
}

/// Expanding runs with one more run at the end adds that run's values.
proof fn lemma_expand_push(cs: Seq<nat>, c: nat, b: bool)
    requires
        runs_within_limit(cs.push(c)),
    ensures
        expand_runs(cs.push(c), b) == (expand_runs(cs, b).0 + repeat(alternate(b, cs.len()), c), false),
        expand_runs(cs, b).1 == false,
    decreases cs.len(),
{
    if cs.len() == 0 {
        assert(cs.push(c) =~= seq![c]);
        assert(seq![c].drop_first() =~= Seq::<nat>::empty());
        assert(seq![c][0] == c);
        assert(cs.push(c)[0] <= MAX_RLE_COUNT);
        assert(expand_runs(Seq::<nat>::empty(), !b) == (Seq::<bool>::empty(), false));
        assert(expand_runs(seq![c], b) == (repeat(b, c) + Seq::<bool>::empty(), false));
        assert(repeat(b, c) + Seq::<bool>::empty() =~= repeat(b, c));
        assert(Seq::<bool>::empty() + repeat(b, c) =~= repeat(b, c));
    } else {
        let tail = cs.drop_first();
        assert(cs.push(c).drop_first() =~= tail.push(c));
        assert(cs.push(c)[0] == cs[0]);
        assert(runs_within_limit(tail.push(c))) by {
            assert forall|i: int| 0 <= i < tail.push(c).len() implies #[trigger] tail.push(c)[i] <= MAX_RLE_COUNT by {
                assert(tail.push(c)[i] == cs.push(c)[i + 1]);
            }
        }
        assert(cs.push(c)[0] <= MAX_RLE_COUNT);
        lemma_expand_push(tail, c, !b);
        assert(alternate(!b, tail.len()) == alternate(b, cs.len()));
        let r0 = repeat(b, cs[0]);
        let r1 = expand_runs(tail, !b).0;
        let r2 = repeat(alternate(b, cs.len()), c);
        assert(r0 + (r1 + r2) =~= (r0 + r1) + r2);
    }
}

/// The runs of `bs`, expanded from a first run of `false`, give back `bs`;
/// the value of the last run is the last boolean.
proof fn lemma_bool_runs_expand(bs: Seq<bool>)
    requires
        runs_within_limit(bool_runs(bs)),
    ensures
        expand_runs(bool_runs(bs), false) == (bs, false),
        bs.len() > 0 ==> alternate(false, (bool_runs(bs).len() - 1) as nat) == bs.last(),
        bs.len() > 0 ==> bool_runs(bs).len() > 0,
        forall|i: int| 0 <= i < bool_runs(bs).len() ==> #[trigger] bool_runs(bs)[i] <= bs.len(),
    decreases bs.len(),
{
    let runs = bool_runs(bs);
    if bs.len() == 0 {
        assert(bs =~= Seq::<bool>::empty());
    } else if bs.len() == 1 {
        if bs[0] {
            assert(seq![0nat, 1] =~= seq![0nat].push(1));
            assert(seq![0nat] =~= Seq::<nat>::empty().push(0));
            lemma_expand_push(seq![0nat], 1, false);
            lemma_expand_push(Seq::<nat>::empty(), 0, false);
            assert(repeat(false, 0) + repeat(true, 1) =~= bs);
            assert(Seq::<bool>::empty() + repeat(false, 0) =~= repeat(false, 0));
        } else {
            assert(seq![1nat] =~= Seq::<nat>::empty().push(1));
            lemma_expand_push(Seq::<nat>::empty(), 1, false);
            assert(Seq::<bool>::empty() + repeat(false, 1) =~= bs);
        }
    } else {
        let prefix = bs.drop_last();
        let prev = bool_runs(prefix);
        let x = bs.last();
        if bs[bs.len() - 2] == x {
            assert(runs == prev.update(prev.len() - 1, prev.last() + 1));
            assert(runs_within_limit(prev)) by {
                assert forall|i: int| 0 <= i < prev.len() implies #[trigger] prev[i] <= MAX_RLE_COUNT by {
                    assert(runs[i] <= MAX_RLE_COUNT);
                }
            }
            lemma_bool_runs_expand(prefix);
            let front = prev.drop_last();
            let l = prev.last();
            assert(prev =~= front.push(l));
            assert(runs =~= front.push((l + 1) as nat));
            lemma_expand_push(front, (l + 1) as nat, false);
            lemma_expand_push(front, l, false);
            let a = alternate(false, front.len());
            assert(repeat(a, (l + 1) as nat) =~= repeat(a, l).push(a));
            assert(prefix.last() == x);
            assert(expand_runs(front, false).0 + repeat(a, (l + 1) as nat) =~= (expand_runs(front, false).0 + repeat(a, l)).push(a));
            assert(prefix.push(x) =~= bs);
        } else {
            assert(runs == prev.push(1));
            assert(runs_within_limit(prev)) by {
                assert forall|i: int| 0 <= i < prev.len() implies #[trigger] prev[i] <= MAX_RLE_COUNT by {
                    assert(runs[i] == prev[i]);
                }
            }
            lemma_bool_runs_expand(prefix);
            lemma_expand_push(prev, 1, false);
            assert(repeat(alternate(false, prev.len()), 1) =~= seq![x]);
            assert(prefix + seq![x] =~= bs);
        }
    }
}

/// The last run is never empty.
proof fn lemma_bool_runs_last_positive(bs: Seq<bool>)
    requires
        bs.len() > 0,
    ensures
        bool_runs(bs).len() > 0,
        bool_runs(bs).last() > 0,
    decreases bs.len(),
{
    if bs.len() > 1 {
        lemma_bool_runs_last_positive(bs.drop_last());
    }
}

} // verus!
