//! Byte helpers shared by the framed codecs: big-endian lengths and partly filled buffers.

use vstd::prelude::*;

verus! {

/// Big-endian bytes of a `u16`.
pub open spec fn be16(v: u16) -> Seq<u8> {
    seq![(v >> 8u16) as u8, v as u8]
}

/// The `u16` with big-endian bytes `hi`, `lo`.
pub open spec fn from_be16(hi: u8, lo: u8) -> u16 {
    ((hi as u16) << 8u16) | (lo as u16)
}

pub proof fn lemma_be16(v: u16)
    ensures
        from_be16(be16(v)[0], be16(v)[1]) == v,
        be16(v).len() == 2,
{
    assert((((((v >> 8u16) as u8) as u16) << 8u16) | ((v as u8) as u16)) == v) by (bit_vector);
}

pub proof fn lemma_from_be16(hi: u8, lo: u8)
    ensures
        be16(from_be16(hi, lo)) == seq![hi, lo],
{
    let v = from_be16(hi, lo);
    assert(((v >> 8u16) as u8) == hi && (v as u8) == lo) by (bit_vector)
        requires
            v == ((hi as u16) << 8u16) | (lo as u16),
    ;
    assert(be16(v) =~= seq![hi, lo]);
}

/// The big-endian bytes of `v`.
pub fn be16_bytes(v: u16) -> (r: [u8; 2])
    ensures
        r@ == be16(v),
{
    let r = [(v >> 8u16) as u8, v as u8];
    assert(r@ =~= be16(v));
    r
}

/// The `u16` with big-endian bytes `hi`, `lo`.
pub fn u16_from_be(hi: u8, lo: u8) -> (r: u16)
    ensures
        r == from_be16(hi, lo),
{
    ((hi as u16) << 8u16) | (lo as u16)
}

/// A buffer of a given size, filled from the front.
pub struct Buffer {
    data: Vec<u8>,
    offset: usize,
}

impl Buffer {
    /// The bytes of the buffer, filled or not.
    pub closed spec fn data(&self) -> Seq<u8> {
        self.data@
    }

    /// How many bytes are filled.
    pub closed spec fn offset(&self) -> nat {
        self.offset as nat
    }

    pub open spec fn wf(&self) -> bool {
        self.offset() <= self.data().len()
    }

    /// A buffer holding `data`, none of it filled.
    pub fn new(data: Vec<u8>) -> (r: Self)
        ensures
            r.wf(),
            r.data() == data@,
            r.offset() == 0,
    {
        Buffer { data, offset: 0 }
    }

    /// Makes the buffer `size` bytes long (keeping what it holds up to that size, zeros after)
    /// and unfilled.
    pub fn reset(&mut self, size: usize)
        ensures
            final(self).wf(),
            final(self).offset() == 0,
            final(self).data().len() == size,
            forall|i: int| 0 <= i < size ==> #[trigger] final(self).data()[i] == if i < old(self).data().len() {
                old(self).data()[i]
            } else {
                0u8
            },
    {
        self.data.resize(size, 0);
        self.offset = 0;
    }

    /// The filled part.
    pub fn filled(&self) -> (r: &[u8])
        requires
            self.wf(),
        ensures
            r@ == self.data().take(self.offset() as int),
    {
        vstd::slice::slice_subrange(self.data.as_slice(), 0, self.offset)
    }

    /// The part still to fill.
    pub fn remaining(&self) -> (r: &[u8])
        requires
            self.wf(),
        ensures
            r@ == self.data().skip(self.offset() as int),
    {
        vstd::slice::slice_subrange(self.data.as_slice(), self.offset, self.data.len())
    }

    /// Number of bytes still to fill.
    pub fn remaining_len(&self) -> (r: usize)
        requires
            self.wf(),
        ensures
            r == self.data().len() - self.offset(),
    {
        self.data.len() - self.offset
    }

    /// Marks `len` more bytes as filled.
    pub fn advance(&mut self, len: usize)
        requires
            old(self).wf(),
            old(self).offset() + len <= old(self).data().len(),
        ensures
            final(self).wf(),
            final(self).data() == old(self).data(),
            final(self).offset() == old(self).offset() + len,
    {
        let n = self.data.len();
        assert(self.offset + len <= n);
        self.offset = self.offset + len;
    }

    /// Fills the next bytes with `chunk`.
    pub fn fill(&mut self, chunk: &[u8])
        requires
            old(self).wf(),
            old(self).offset() + chunk@.len() <= old(self).data().len(),
        ensures
            final(self).wf(),
            final(self).offset() == old(self).offset() + chunk@.len(),
            final(self).data().len() == old(self).data().len(),
            final(self).data().take(final(self).offset() as int) == old(self).data().take(
                old(self).offset() as int,
            ) + chunk@,
    {
        let mut i: usize = 0;
        let n = self.data.len();
        while i < chunk.len()
            invariant
                i <= chunk@.len(),
                n == self.data@.len(),
                self.offset == old(self).offset + i,
                self.offset + (chunk@.len() - i) <= self.data@.len(),
                self.data@.len() == old(self).data@.len(),
                self.data@.take(self.offset as int) == old(self).data@.take(old(self).offset as int) + chunk@.take(
                    i as int,
                ),
            decreases chunk@.len() - i,
        {
            let ghost before = self.data@;
            self.data.set(self.offset, chunk[i]);
            proof {
                assert(self.data@.take(self.offset + 1) =~= before.take(self.offset as int) + seq![chunk@[i as int]]);
                assert(chunk@.take(i + 1) =~= chunk@.take(i as int) + seq![chunk@[i as int]]);
            }
            self.offset = self.offset + 1;
            i = i + 1;
        }
        assert(chunk@.take(chunk@.len() as int) =~= chunk@);
    }

    /// The whole data; the buffer is left empty.
    pub fn take_data(&mut self) -> (r: Vec<u8>)
        ensures
            r@ == old(self).data(),
            final(self).wf(),
            final(self).data().len() == 0,
            final(self).offset() == 0,
    {
        let mut data: Vec<u8> = Vec::new();
        std::mem::swap(&mut data, &mut self.data);
        self.offset = 0;
        data
    }
}

} // verus!
