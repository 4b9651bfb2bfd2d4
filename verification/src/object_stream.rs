//! Framing of serialized objects on a byte stream: each object is sent as its length (two bytes,
//! big endian) followed by its bytes.
//!
//! The reader and the writer here decide what to read and write; the caller moves the bytes.

use crate::framing::{be16, be16_bytes, from_be16, lemma_be16, lemma_from_be16, u16_from_be, Buffer};
use std::marker::PhantomData;
use vstd::prelude::*;

verus! {

/// Max object size when serialized, in bytes.
pub const MAX_SERIALIZED_OBJECT_SIZE: u16 = 65534;

/// The frame of a serialized object: its length, then its bytes.
pub open spec fn frame(data: Seq<u8>) -> Seq<u8> {
    be16(data.len() as u16) + data
}

/// A serialized object is larger than a frame can hold.
#[derive(Clone, Copy, PartialEq, Eq, Debug, Structural)]
pub struct LengthError;

#[derive(Clone, Copy, PartialEq, Eq, Debug, Structural)]
pub enum DecodePhase {
    Len,
    Data,
}

/// What a decoder made of the bytes it was given.
#[derive(Clone, PartialEq, Eq, Debug)]
pub enum Decoded {
    /// The frame is not complete yet.
    NeedMore,
    /// A frame is complete; these are the object's bytes.
    Frame(Vec<u8>),
    /// The frame announces an object larger than allowed.
    TooLong,
}

/// Reads frames.
pub struct Decoder {
    phase: DecodePhase,
    buffer: Buffer,
}

impl Decoder {
    /// The length bytes already taken in, once the length is complete.
    pub closed spec fn header(&self) -> Seq<u8> {
        match self.phase {
            DecodePhase::Len => Seq::empty(),
            DecodePhase::Data => be16(self.buffer.data().len() as u16),
        }
    }

    /// The bytes of the current frame received so far.
    pub closed spec fn received(&self) -> Seq<u8> {
        self.header() + self.buffer.data().take(self.buffer.offset() as int)
    }

    /// How many more bytes the current read may take.
    pub closed spec fn spec_wanted(&self) -> nat {
        (self.buffer.data().len() - self.buffer.offset()) as nat
    }

    pub closed spec fn wf(&self) -> bool {
        &&& self.buffer.wf()
        &&& self.phase == DecodePhase::Len ==> self.buffer.data().len() == 2
        &&& self.phase == DecodePhase::Data ==> self.buffer.data().len() <= MAX_SERIALIZED_OBJECT_SIZE
    }

    pub fn new() -> (r: Self)
        ensures
            r.wf(),
            r.received() == Seq::<u8>::empty(),
            r.spec_wanted() == 2,
    {
        let r = Decoder { phase: DecodePhase::Len, buffer: Buffer::new(vec![0u8, 0u8]) };
        assert(r.received() =~= Seq::<u8>::empty());
        r
    }

    /// How many more bytes the current read may take: the rest of the length, or of the object.
    pub fn wanted(&self) -> (r: usize)
        requires
            self.wf(),
        ensures
            r == self.spec_wanted(),
    {
        self.buffer.remaining_len()
    }

    /// The bytes received so far of the current length or object.
    pub fn filled(&self) -> (r: &[u8])
        requires
            self.wf(),
        ensures
            self.received() == self.header() + r@,
    {
        self.buffer.filled()
    }

    /// Takes the next bytes of the stream, read into the room [`Decoder::wanted`] gives. Once the
    /// length is complete, an object larger than allowed is refused; once the object is
    /// complete (at once for an empty one), it is returned and the next frame begins.
    pub fn push(&mut self, chunk: &[u8]) -> (r: Decoded)
        requires
            old(self).wf(),
            0 < chunk@.len() <= old(self).spec_wanted(),
        ensures
            final(self).wf(),
            ({
                let all = old(self).received() + chunk@;
                &&& r is TooLong <==> all.len() == 2 && from_be16(all[0], all[1]) > MAX_SERIALIZED_OBJECT_SIZE
                &&& r matches Decoded::Frame(data) ==> all == frame(data@)
                &&& r is Frame <==> all.len() >= 2 && all.len() == 2 + from_be16(all[0], all[1])
                &&& r is Frame ==> final(self).received() == Seq::<u8>::empty() && final(self).spec_wanted() == 2
                &&& !(r is Frame) ==> final(self).received() == all
                &&& r is NeedMore ==> final(self).spec_wanted() == 2 + from_be16(all[0], all[1]) - all.len()
                    || all.len() < 2 && final(self).spec_wanted() == 2 - all.len()
            }),
    {
        let ghost all = self.received() + chunk@;
        self.buffer.fill(chunk);
        match self.phase {
            DecodePhase::Len => {
                if self.buffer.remaining_len() > 0 {
                    assert(self.received() == all);
                    return Decoded::NeedMore;
                }
                let filled = self.buffer.filled();
                let len = u16_from_be(filled[0], filled[1]);
                proof {
                    assert(all =~= filled@);
                }
                if len > MAX_SERIALIZED_OBJECT_SIZE {
                    return Decoded::TooLong;
                }
                if len == 0 {
                    self.buffer.reset(2);
                    proof {
                        lemma_from_be16(all[0], all[1]);
                        assert(all =~= seq![all[0], all[1]]);
                        assert(all =~= frame(Seq::<u8>::empty()));
                        assert(self.received() =~= Seq::<u8>::empty());
                    }
                    return Decoded::Frame(Vec::new());
                }
                self.buffer.reset(len as usize);
                self.phase = DecodePhase::Data;
                proof {
                    lemma_from_be16(all[0], all[1]);
                    assert(self.buffer.data().take(0) =~= Seq::<u8>::empty());
                    assert(all =~= seq![all[0], all[1]]);
                    assert(self.received() =~= all);
                }
                Decoded::NeedMore
            },
            DecodePhase::Data => {
                if self.buffer.remaining_len() > 0 {
                    proof {
                        let d = old(self).buffer.data();
                        lemma_be16(d.len() as u16);
                        assert(self.received() =~= all);
                    }
                    return Decoded::NeedMore;
                }
                let ghost full = self.buffer.data();
                proof {
                    assert(full.take(full.len() as int) =~= full);
                }
                let data = self.buffer.take_data();
                self.buffer.reset(2);
                self.phase = DecodePhase::Len;
                proof {
                    let d = old(self).buffer.data();
                    lemma_be16(d.len() as u16);
                    assert(d.take(d.len() as int) =~= d);
                    assert(self.received() =~= Seq::<u8>::empty());
                    assert(all =~= frame(data@));
                }
                Decoded::Frame(data)
            },
        }
    }
}

#[derive(Clone, Copy, PartialEq, Eq, Debug, Structural)]
pub enum EncodePhase {
    Ready,
    Len { offset: usize },
    Data,
}

/// Writes frames.
pub struct Encoder {
    phase: EncodePhase,
    buffer: Buffer,
}

impl Encoder {
    /// The frame being written, and how much of it is written.
    pub closed spec fn frame_and_sent(&self) -> (Seq<u8>, nat) {
        match self.phase {
            EncodePhase::Ready => (Seq::empty(), 0),
            EncodePhase::Len { offset } => (frame(self.buffer.data()), offset as nat),
            EncodePhase::Data => (frame(self.buffer.data()), 2 + self.buffer.offset()),
        }
    }

    pub closed spec fn is_ready(&self) -> bool {
        self.phase == EncodePhase::Ready
    }

    pub closed spec fn wf(&self) -> bool {
        &&& self.buffer.wf()
        &&& self.buffer.data().len() <= MAX_SERIALIZED_OBJECT_SIZE
        &&& match self.phase {
            EncodePhase::Ready => true,
            EncodePhase::Len { offset } => offset < 2 && self.buffer.offset() == 0,
            EncodePhase::Data => true,
        }
    }

    pub fn new() -> (r: Self)
        ensures
            r.wf(),
            r.is_ready(),
    {
        Encoder { phase: EncodePhase::Ready, buffer: Buffer::new(Vec::new()) }
    }

    /// Starts writing the frame of a serialized object. An object larger than allowed is
    /// refused, and nothing changes.
    pub fn start(&mut self, data: Vec<u8>) -> (r: Result<(), LengthError>)
        requires
            old(self).wf(),
            old(self).is_ready(),
        ensures
            final(self).wf(),
            r is Err <==> data@.len() > MAX_SERIALIZED_OBJECT_SIZE,
            r is Err ==> final(self).is_ready(),
            r is Ok ==> final(self).frame_and_sent() == (frame(data@), 0nat) && !final(self).is_ready(),
    {
        if data.len() > MAX_SERIALIZED_OBJECT_SIZE as usize {
            return Err(LengthError);
        }
        self.phase = EncodePhase::Len { offset: 0 };
        self.buffer = Buffer::new(data);
        Ok(())
    }

    /// The bytes to write next: the rest of the length, then the rest of the object; nothing
    /// when ready for the next object.
    pub fn pending(&self) -> (r: Vec<u8>)
        requires
            self.wf(),
        ensures
            r@ == self.frame_and_sent().0.skip(self.frame_and_sent().1 as int),
    {
        match self.phase {
            EncodePhase::Ready => Vec::new(),
            EncodePhase::Len { offset } => {
                let len = be16_bytes(self.buffer.remaining_len() as u16);
                let rest = self.buffer.remaining();
                let mut r: Vec<u8> = Vec::new();
                if offset == 0 {
                    r.push(len[0]);
                }
                r.push(len[1]);
                let mut i: usize = 0;
                while i < rest.len()
                    invariant
                        i <= rest@.len(),
                        r@ == be16(self.buffer.data().len() as u16).skip(offset as int) + rest@.take(i as int),
                        offset < 2,
                        len@ == be16(self.buffer.data().len() as u16),
                    decreases rest@.len() - i,
                {
                    r.push(rest[i]);
                    proof {
                        assert(rest@.take(i + 1) =~= rest@.take(i as int).push(rest@[i as int]));
                    }
                    i = i + 1;
                }
                proof {
                    assert(rest@.take(rest@.len() as int) =~= rest@);
                    assert(self.buffer.data().skip(0) =~= self.buffer.data());
                    assert(frame(self.buffer.data()).skip(offset as int) =~= be16(
                        self.buffer.data().len() as u16,
                    ).skip(offset as int) + self.buffer.data());
                }
                r
            },
            EncodePhase::Data => {
                let rest = self.buffer.remaining();
                let mut r: Vec<u8> = Vec::new();
                let mut i: usize = 0;
                while i < rest.len()
                    invariant
                        i <= rest@.len(),
                        r@ == rest@.take(i as int),
                    decreases rest@.len() - i,
                {
                    r.push(rest[i]);
                    proof {
                        assert(rest@.take(i + 1) =~= rest@.take(i as int).push(rest@[i as int]));
                    }
                    i = i + 1;
                }
                proof {
                    let d = self.buffer.data();
                    assert(rest@.take(rest@.len() as int) =~= rest@);
                    assert(be16(d.len() as u16).len() == 2);
                    assert(frame(d).skip((2 + self.buffer.offset()) as int) =~= d.skip(self.buffer.offset() as int));
                }
                r
            },
        }
    }

    /// Notes that the first `n` pending bytes were written. Returns whether the frame is now
    /// written whole, the encoder being ready for the next object.
    pub fn written(&mut self, n: usize) -> (r: bool)
        requires
            old(self).wf(),
            !old(self).is_ready(),
            0 < n <= old(self).frame_and_sent().0.len() - old(self).frame_and_sent().1,
        ensures
            final(self).wf(),
            r == (old(self).frame_and_sent().1 + n == old(self).frame_and_sent().0.len()),
            r ==> final(self).is_ready(),
            !r ==> !final(self).is_ready() && final(self).frame_and_sent() == (
                old(self).frame_and_sent().0,
                (old(self).frame_and_sent().1 + n) as nat,
            ),
    {
        match self.phase {
            EncodePhase::Ready => false,
            EncodePhase::Len { offset } => {
                if offset + n >= 2 {
                    let rest = offset + n - 2;
                    self.phase = EncodePhase::Data;
                    self.buffer.advance(rest);
                    if self.buffer.remaining_len() == 0 {
                        self.phase = EncodePhase::Ready;
                        self.buffer.reset(0);
                        true
                    } else {
                        false
                    }
                } else {
                    self.phase = EncodePhase::Len { offset: offset + n };
                    false
                }
            },
            EncodePhase::Data => {
                self.buffer.advance(n);
                if self.buffer.remaining_len() == 0 {
                    self.phase = EncodePhase::Ready;
                    self.buffer.reset(0);
                    true
                } else {
                    false
                }
            },
        }
    }
}

/// Turns a reader into a source of objects: the reader, with the decoder of its frames.
pub struct ObjectRead<T, R> {
    pub read: R,
    pub decoder: Decoder,
    pub _ty: PhantomData<T>,
}

impl<T, R> ObjectRead<T, R> {
    pub fn new(read: R) -> (r: Self)
        ensures
            r.read == read,
            r.decoder.wf(),
            r.decoder.received() == Seq::<u8>::empty(),
            r.decoder.spec_wanted() == 2,
    {
        ObjectRead { read, decoder: Decoder::new(), _ty: PhantomData }
    }
}

/// Turns a writer into a sink of objects: the writer, with the encoder of its frames.
pub struct ObjectWrite<T, W> {
    pub write: W,
    pub encoder: Encoder,
    pub _ty: PhantomData<T>,
}

impl<T, W> ObjectWrite<T, W> {
    pub fn new(write: W) -> (r: Self)
        ensures
            r.write == write,
            r.encoder.wf(),
            r.encoder.is_ready(),
    {
        ObjectWrite { write, encoder: Encoder::new(), _ty: PhantomData }
    }
}

/// A frame read back gives the object it was made of: the length at its front is the object's.
pub proof fn lemma_frame_length(data: Seq<u8>)
    requires
        data.len() <= MAX_SERIALIZED_OBJECT_SIZE,
    ensures
        frame(data).len() == 2 + data.len(),
        from_be16(frame(data)[0], frame(data)[1]) == data.len(),
        frame(data).skip(2) == data,
{
    lemma_be16(data.len() as u16);
    assert(frame(data).skip(2) =~= data);
}

} // verus!
