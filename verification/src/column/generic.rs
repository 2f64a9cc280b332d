//! A column of values stored one after another, after their count.
use vstd::prelude::*;
use crate::codec::Rleable;
use crate::column::{ColumnAttr, ColumnTrait};
use crate::err::ColumnarError;
use crate::strategy::any_rle::{encode_values, lemma_encode_values_front};
use crate::strategy::{read_value, write_value};
use crate::varint::taken;

verus! {

/// The values that reading `n` values one after another from the front of
/// `s` gives; `None` where one of them cannot be read.
pub open spec fn read_values<T: Rleable>(s: Seq<u8>, n: nat) -> Option<Seq<T>>
    decreases n,
{
    if n == 0 {
        Some(seq![])
    } else {
        match T::spec_decode(s) {
            None => None,
            Some((v, k)) => match read_values::<T>(s.skip(k as int), (n - 1) as nat) {
                Some(vs) => Some(seq![v] + vs),
                None => None,
            },
        }
    }
}

/// The bytes of a sequence of values: their count, then the values.
pub open spec fn spec_seq_encode<T: Rleable>(vs: Seq<T>) -> Seq<u8> {
    usize::spec_encode(vs.len() as usize) + encode_values(vs)
}

/// What reading a sequence of values from the front of `bytes` gives.
pub open spec fn spec_seq_decode<T: Rleable>(bytes: Seq<u8>) -> Option<Seq<T>> {
    match usize::spec_decode(bytes) {
        Some((n, k)) => read_values::<T>(bytes.skip(k as int), n as nat),
        None => None,
    }
}

/// Values stored without compression.
#[derive(Debug)]
pub struct GenericColumn<T> {
    pub data: Vec<T>,
    pub attr: ColumnAttr,
}

impl<T> View for GenericColumn<T> {
    type V = Seq<T>;

    open spec fn view(&self) -> Seq<T> {
        self.data@
    }
}

impl<T> GenericColumn<T> {
    pub fn new(data: Vec<T>, attr: ColumnAttr) -> (r: Self)
        ensures
            r.data == data,
            r.attr == attr,
    {
        GenericColumn { data, attr }
    }
}

impl<T: Rleable> From<Vec<T>> for GenericColumn<T> {
    /// A column of the values with no attribute.
    fn from(value: Vec<T>) -> (r: Self) {
        GenericColumn { data: value, attr: ColumnAttr::empty() }
    }
}

impl<T: Rleable> vstd::std_specs::convert::FromSpecImpl<Vec<T>> for GenericColumn<T> {
    open spec fn obeys_from_spec() -> bool {
        true
    }

    open spec fn from_spec(value: Vec<T>) -> GenericColumn<T> {
        GenericColumn { data: value, attr: ColumnAttr::spec_empty() }
    }
}

impl<T: Rleable> ColumnTrait for GenericColumn<T> {
    open spec fn spec_len(&self) -> nat {
        self.data@.len()
    }

    /// A generic column reports no attribute.
    open spec fn spec_attr(&self) -> ColumnAttr {
        ColumnAttr::spec_empty()
    }

    open spec fn spec_encodable(data: Seq<T>) -> bool {
        true
    }

    open spec fn spec_encodes(data: Seq<T>, bytes: Seq<u8>) -> bool {
        bytes == spec_seq_encode(data)
    }

    open spec fn spec_decodable(bytes: Seq<u8>) -> bool {
        true
    }

    open spec fn spec_decode(bytes: Seq<u8>) -> Option<Seq<T>> {
        spec_seq_decode::<T>(bytes)
    }

    open spec fn spec_within_limits(data: Seq<T>) -> bool {
        data.len() <= usize::MAX
    }

    fn attr(&self) -> (r: ColumnAttr) {
        ColumnAttr::empty()
    }

    fn encode(&self) -> (r: Result<Vec<u8>, ColumnarError>) {
        let mut bytes: Vec<u8> = Vec::new();
        let n = self.data.len();
        write_value(&mut bytes, &n)?;
        let ghost head = bytes@;
        let mut i: usize = 0;
        while i < n
            invariant
                n == self.data@.len(),
                i <= n,
                head == usize::spec_encode(n),
                bytes@ == head + encode_values(self.data@.take(i as int)),
            decreases n - i,
        {
            write_value(&mut bytes, &self.data[i])?;
            proof {
                let t = self.data@.take(i + 1);
                assert(t.drop_last() =~= self.data@.take(i as int));
                assert(bytes@ =~= head + encode_values(t));
            }
            i = i + 1;
        }
        proof {
            assert(self.data@.take(n as int) =~= self.data@);
        }
        Ok(bytes)
    }

    fn decode(bytes: &[u8]) -> (r: Result<Self, ColumnarError>) {
        let ghost s = bytes@;
        let (n, rest) = read_value::<usize>(bytes)?;
        let ghost k = taken(s, rest@);
        let mut data: Vec<T> = Vec::new();
        let mut rest = rest;
        let mut i: usize = 0;
        while i < n
            invariant
                i <= n,
                s == bytes@,
                usize::spec_decode(s) == Some((n, k)),
                read_values::<T>(s.skip(k as int), n as nat) == match read_values::<T>(rest@, (n - i) as nat) {
                    Some(vs) => Some(data@ + vs),
                    None => None::<Seq<T>>,
                },
            decreases n - i,
        {
            let ghost r0 = rest@;
            let (v, r1) = match read_value::<T>(rest) {
                Ok(x) => x,
                Err(e) => {
                    proof {
                        assert(read_values::<T>(r0, (n - i) as nat) is None);
                    }
                    return Err(e);
                },
            };
            proof {
                assert(r1@ =~= r0.skip(taken(r0, r1@) as int));
                match read_values::<T>(r1@, (n - i - 1) as nat) {
                    Some(vs) => {
                        assert(data@ + (seq![v] + vs) =~= data@.push(v) + vs);
                    },
                    None => {},
                }
            }
            data.push(v);
            rest = r1;
            i = i + 1;
        }
        proof {
            assert(data@ + Seq::<T>::empty() =~= data@);
        }
        Ok(GenericColumn { data, attr: ColumnAttr::empty() })
    }

    fn len(&self) -> (r: usize) {
        self.data.len()
    }

    proof fn lemma_roundtrip(data: Seq<T>, bytes: Seq<u8>) {
        usize::lemma_roundtrip(data.len() as usize, encode_values(data));
        lemma_read_values(data, seq![]);
        assert(encode_values(data) + Seq::<u8>::empty() =~= encode_values(data));
        assert(bytes.skip(usize::spec_encode(data.len() as usize).len() as int) =~= encode_values(data));
    }
}

/// Reading as many values as were written gives them back.
proof fn lemma_read_values<T: Rleable>(vs: Seq<T>, t: Seq<u8>)
    ensures
        read_values::<T>(encode_values(vs) + t, vs.len()) == Some(vs),
    decreases vs.len(),
{
    if vs.len() > 0 {
        let v = vs[0];
        let rest = vs.drop_first();
        assert(vs =~= seq![v] + rest);
        lemma_encode_values_front(v, rest);
        T::lemma_roundtrip(v, encode_values(rest) + t);
        let s = encode_values(vs) + t;
        assert(s =~= T::spec_encode(v) + (encode_values(rest) + t));
        assert(s.skip(T::spec_encode(v).len() as int) =~= encode_values(rest) + t);
        lemma_read_values(rest, t);
    }
}

/// An uncompressed column holds any values: encoding never fails, whatever
/// the values and however many there are.
pub proof fn lemma_generic_column_encodes_all<T: Rleable>(data: Seq<T>)
    ensures
        GenericColumn::<T>::spec_encodable(data),
{
}

} // verus!
