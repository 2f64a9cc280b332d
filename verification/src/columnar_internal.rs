//! The byte source and byte sink that the column codecs read from and write
//! to.
use vstd::prelude::*;

verus! {

/// postcard's `Error::DeserializeUnexpectedEnd`, the error that reading past
/// the end of the bytes gives; the value is opaque, so nothing is stated of
/// it.
#[verifier::external_body]
fn unexpected_end() -> postcard::Error {
    postcard::Error::DeserializeUnexpectedEnd
}

/// Reads bytes from the front of a slice.
#[derive(Debug)]
pub struct Cursor<'de> {
    original: &'de [u8],
    pos: usize,
    end: usize,
}

impl<'de> Cursor<'de> {
    /// The bytes the cursor reads from.
    pub closed spec fn original(&self) -> Seq<u8> {
        self.original@
    }

    /// How many bytes have been read.
    pub closed spec fn pos(&self) -> nat {
        self.pos as nat
    }

    /// The bytes not read yet.
    pub open spec fn rest(&self) -> Seq<u8> {
        self.original().skip(self.pos() as int)
    }

    /// The cursor stands within its bytes.
    pub closed spec fn wf(&self) -> bool {
        &&& self.pos <= self.end
        &&& self.end == self.original@.len()
    }

    pub fn new(bytes: &'de [u8]) -> (r: Self)
        ensures
            r.wf(),
            r.original() == bytes@,
            r.pos() == 0,
    {
        Cursor { pos: 0, original: bytes, end: bytes.len() }
    }

    /// The next byte; an error at the end.
    pub fn pop(&mut self) -> (r: Result<u8, postcard::Error>)
        requires
            old(self).wf(),
        ensures
            final(self).wf(),
            final(self).original() == old(self).original(),
            r is Ok <==> old(self).pos() < old(self).original().len(),
            r matches Ok(b) ==> b == old(self).original()[old(self).pos() as int] && final(self).pos() == old(self).pos() + 1,
            r is Err ==> final(self).pos() == old(self).pos(),
    {
        if self.pos >= self.end {
            Err(unexpected_end())
        } else {
            let res = self.original[self.pos];
            self.pos += 1;
            Ok(res)
        }
    }

    /// The next `ct` bytes; an error where fewer are left.
    pub fn try_take_n(&mut self, ct: usize) -> (r: Result<&'de [u8], postcard::Error>)
        requires
            old(self).wf(),
        ensures
            final(self).wf(),
            final(self).original() == old(self).original(),
            r is Ok <==> old(self).pos() + ct <= old(self).original().len(),
            r matches Ok(s) ==> s@ == old(self).original().subrange(old(self).pos() as int, old(self).pos() + ct)
                && final(self).pos() == old(self).pos() + ct,
            r is Err ==> final(self).pos() == old(self).pos(),
    {
        let stop = match self.pos.checked_add(ct) {
            Some(s) => s,
            None => {
                return Err(unexpected_end());
            },
        };
        if stop > self.end {
            Err(unexpected_end())
        } else {
            let sli = vstd::slice::slice_subrange(self.original, self.pos, stop);
            self.pos = stop;
            Ok(sli)
        }
    }

    /// The bytes not read.
    pub fn finalize(self) -> (r: Result<&'de [u8], postcard::Error>)
        requires
            self.wf(),
        ensures
            r matches Ok(s) && s@ == self.rest(),
    {
        let r = vstd::slice::slice_subrange(self.original, self.pos, self.end);
        proof {
            assert(r@ =~= self.rest());
        }
        Ok(r)
    }
}

/// Collects written bytes in a vector.
#[derive(Debug, Default, Clone)]
pub struct AllocVec {
    vec: Vec<u8>,
}

impl View for AllocVec {
    type V = Seq<u8>;

    /// The bytes written so far.
    closed spec fn view(&self) -> Seq<u8> {
        self.vec@
    }
}

impl AllocVec {
    /// An empty sink.
    pub fn new() -> (r: Self)
        ensures
            r@ == Seq::<u8>::empty(),
    {
        AllocVec { vec: Vec::new() }
    }

    /// Appends bytes; never fails.
    pub fn try_extend(&mut self, data: &[u8]) -> (r: Result<(), postcard::Error>)
        ensures
            r is Ok,
            final(self)@ == old(self)@ + data@,
    {
        let mut i: usize = 0;
        while i < data.len()
            invariant
                i <= data@.len(),
                self@ == old(self)@ + data@.take(i as int),
            decreases data@.len() - i,
        {
            self.vec.push(data[i]);
            proof {
                assert(data@.take(i + 1) =~= data@.take(i as int).push(data@[i as int]));
            }
            i = i + 1;
        }
        proof {
            assert(data@.take(i as int) =~= data@);
        }
        Ok(())
    }

    /// Appends a byte; never fails.
    pub fn try_push(&mut self, data: u8) -> (r: Result<(), postcard::Error>)
        ensures
            r is Ok,
            final(self)@ == old(self)@.push(data),
    {
        self.vec.push(data);
        Ok(())
    }

    /// The bytes written.
    pub fn finalize(self) -> (r: Result<Vec<u8>, postcard::Error>)
        ensures
            r matches Ok(v) && v@ == self@,
    {
        Ok(self.vec)
    }
}

} // verus!
