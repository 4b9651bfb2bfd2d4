//! Framing of messages on a byte stream. A message is sent as the id of its repository, then the
//! length of its content (two bytes, big endian), then the content.
//!
//! The reader and the writer here decide what to read and write; the caller moves the bytes.

use crate::framing::{be16, be16_bytes, from_be16, lemma_be16, lemma_from_be16, u16_from_be, Buffer};
use vstd::prelude::*;

verus! {

/// Max message size when serialized, in bytes. This is also the maximum message size in the
/// Noise protocol framework.
pub const MAX_MESSAGE_SIZE: u16 = 65534;

/// Size of a public repository id in bytes.
pub const ID_SIZE: usize = 32;

/// A message for a repository.
#[derive(Clone, PartialEq, Eq, Debug)]
pub struct Message {
    pub id: [u8; 32],
    pub content: Vec<u8>,
}

/// The bytes of a message on the wire.
pub open spec fn message_frame(id: Seq<u8>, content: Seq<u8>) -> Seq<u8> {
    id + be16(content.len() as u16) + content
}

/// A message larger than allowed.
#[derive(Clone, Copy, PartialEq, Eq, Debug, Structural)]
pub struct LengthError;

#[derive(Clone, Copy, PartialEq, Eq, Debug)]
pub enum DecodePhase {
    Id,
    Len { id: [u8; 32] },
    Content { id: [u8; 32] },
}

/// What a decoder made of the bytes it was given.
#[derive(Clone, PartialEq, Eq, Debug)]
pub enum Decoded {
    /// The message is not complete yet.
    NeedMore,
    /// A message is complete.
    Message(Message),
    /// The message announces content larger than allowed.
    TooLong,
}

/// Reads messages.
pub struct Decoder {
    phase: DecodePhase,
    buffer: Buffer,
}

impl Decoder {
    /// The bytes of the current message taken in before the current part.
    pub closed spec fn header(&self) -> Seq<u8> {
        match self.phase {
            DecodePhase::Id => Seq::empty(),
            DecodePhase::Len { id } => id@,
            DecodePhase::Content { id } => id@ + be16(self.buffer.data().len() as u16),
        }
    }

    /// The bytes of the current message received so far.
    pub closed spec fn received(&self) -> Seq<u8> {
        self.header() + self.buffer.data().take(self.buffer.offset() as int)
    }

    /// How many more bytes the current read may take.
    pub closed spec fn spec_wanted(&self) -> nat {
        (self.buffer.data().len() - self.buffer.offset()) as nat
    }

    pub closed spec fn wf(&self) -> bool {
        &&& self.buffer.wf()
        &&& match self.phase {
            DecodePhase::Id => self.buffer.data().len() == ID_SIZE,
            DecodePhase::Len { .. } => self.buffer.data().len() == 2,
            DecodePhase::Content { .. } => 0 < self.buffer.data().len() <= MAX_MESSAGE_SIZE,
        }
    }

    pub fn new() -> (r: Self)
        ensures
            r.wf(),
            r.received() == Seq::<u8>::empty(),
            r.spec_wanted() == ID_SIZE,
    {
        let r = Decoder { phase: DecodePhase::Id, buffer: Buffer::new(vec![0u8; ID_SIZE]) };
        assert(r.received() =~= Seq::<u8>::empty());
        r
    }

    /// How many more bytes the current read may take.
    pub fn wanted(&self) -> (r: usize)
        requires
            self.wf(),
        ensures
            r == self.spec_wanted(),
    {
        self.buffer.remaining_len()
    }

    /// The bytes received so far of the current part (id, length or content).
    pub fn filled(&self) -> (r: &[u8])
        requires
            self.wf(),
        ensures
            self.received() == self.header() + r@,
    {
        self.buffer.filled()
    }

    /// Takes the next bytes of the stream, read into the room [`Decoder::wanted`] gives: first
    /// the id, then the two bytes of the length, then that many bytes of content. Once the
    /// length is complete, content larger than allowed is refused; once the content is complete
    /// (at once, for empty content), the message is returned and the next one begins.
    pub fn push(&mut self, chunk: &[u8]) -> (r: Decoded)
        requires
            old(self).wf(),
            0 < chunk@.len() <= old(self).spec_wanted(),
        ensures
            final(self).wf(),
            ({
                let all = old(self).received() + chunk@;
                &&& r is TooLong <==> all.len() == ID_SIZE + 2 && from_be16(all[32], all[33]) > MAX_MESSAGE_SIZE
                &&& r matches Decoded::Message(m) ==> all == message_frame(m.id@, m.content@)
                &&& r is Message <==> completes_message(all)
                &&& r is Message ==> final(self).received() == Seq::<u8>::empty() && final(self).spec_wanted() == ID_SIZE
                &&& !(r is Message) ==> final(self).received() == all
                // What it wants next: the rest of the id, of the length, or of the content.
                &&& r is NeedMore ==> final(self).spec_wanted() == if all.len() < ID_SIZE {
                    ID_SIZE - all.len()
                } else if all.len() < ID_SIZE + 2 {
                    ID_SIZE + 2 - all.len()
                } else {
                    ID_SIZE + 2 + from_be16(all[32], all[33]) - all.len()
                }
            }),
    {
        let ghost all = self.received() + chunk@;
        self.buffer.fill(chunk);
        match self.phase {
            DecodePhase::Id => {
                if self.buffer.remaining_len() > 0 {
                    return Decoded::NeedMore;
                }
                let filled = self.buffer.filled();
                let mut id = [0u8; 32];
                let mut i: usize = 0;
                while i < ID_SIZE
                    invariant
                        i <= ID_SIZE,
                        filled@.len() == ID_SIZE,
                        id@.len() == ID_SIZE,
                        forall|j: int| 0 <= j < i ==> id@[j] == filled@[j],
                    decreases ID_SIZE - i,
                {
                    id[i] = filled[i];
                    i = i + 1;
                }
                proof {
                    assert(id@ =~= filled@);
                    assert(all =~= filled@);
                }
                self.phase = DecodePhase::Len { id };
                self.buffer.reset(2);
                proof {
                    assert(self.buffer.data().take(0) =~= Seq::<u8>::empty());
                    assert(self.received() =~= all);
                }
                Decoded::NeedMore
            },
            DecodePhase::Len { id } => {
                if self.buffer.remaining_len() > 0 {
                    return Decoded::NeedMore;
                }
                let filled = self.buffer.filled();
                let len = u16_from_be(filled[0], filled[1]);
                proof {
                    assert(all =~= id@ + filled@);
                    assert(all[32] == filled@[0] && all[33] == filled@[1]);
                }
                if len > MAX_MESSAGE_SIZE {
                    return Decoded::TooLong;
                }
                if len == 0 {
                    // Empty content: the message is complete.
                    self.buffer.reset(ID_SIZE);
                    self.phase = DecodePhase::Id;
                    proof {
                        lemma_from_be16(filled@[0], filled@[1]);
                        assert(filled@ =~= seq![filled@[0], filled@[1]]);
                        lemma_be16(0);
                        assert(all =~= message_frame(id@, Seq::<u8>::empty()));
                        assert(self.received() =~= Seq::<u8>::empty());
                    }
                    return Decoded::Message(Message { id, content: Vec::new() });
                }
                self.buffer.reset(len as usize);
                self.phase = DecodePhase::Content { id };
                proof {
                    lemma_from_be16(filled@[0], filled@[1]);
                    assert(filled@ =~= seq![filled@[0], filled@[1]]);
                    assert(self.buffer.data().take(0) =~= Seq::<u8>::empty());
                    assert(self.received() =~= all);
                }
                Decoded::NeedMore
            },
            DecodePhase::Content { id } => {
                if self.buffer.remaining_len() > 0 {
                    proof {
                        lemma_be16(old(self).buffer.data().len() as u16);
                    }
                    return Decoded::NeedMore;
                }
                let ghost full = self.buffer.data();
                proof {
                    assert(full.take(full.len() as int) =~= full);
                    lemma_be16(full.len() as u16);
                }
                let content = self.buffer.take_data();
                self.buffer.reset(ID_SIZE);
                self.phase = DecodePhase::Id;
                proof {
                    assert(self.received() =~= Seq::<u8>::empty());
                    assert(all =~= message_frame(id@, content@));
                }
                Decoded::Message(Message { id, content })
            },
        }
    }
}

#[derive(Clone, Copy, PartialEq, Eq, Debug, Structural)]
pub enum SendingPhase {
    Id,
    Len,
    Content,
}

/// Writes messages.
pub struct Encoder {
    sending: Option<(Message, SendingPhase)>,
    offset: usize,
}

impl Encoder {
    /// The message being written, if any.
    pub closed spec fn message(&self) -> Option<Message> {
        match self.sending {
            Some((m, _)) => Some(m),
            None => None,
        }
    }

    /// How many bytes of the message's frame are written.
    pub closed spec fn sent(&self) -> nat {
        match self.sending {
            Some((_, SendingPhase::Id)) => self.offset as nat,
            Some((_, SendingPhase::Len)) => (ID_SIZE + self.offset) as nat,
            Some((_, SendingPhase::Content)) => (ID_SIZE + 2 + self.offset) as nat,
            None => 0,
        }
    }

    pub closed spec fn wf(&self) -> bool {
        match self.sending {
            Some((m, SendingPhase::Id)) => self.offset < ID_SIZE && m.content@.len() <= MAX_MESSAGE_SIZE,
            Some((m, SendingPhase::Len)) => self.offset < 2 && m.content@.len() <= MAX_MESSAGE_SIZE,
            Some((m, SendingPhase::Content)) => self.offset < m.content@.len() && m.content@.len() <= MAX_MESSAGE_SIZE,
            None => self.offset == 0,
        }
    }

    /// How many bytes of the current part are still to write.
    pub closed spec fn pending_len(&self) -> nat {
        match self.sending {
            Some((m, SendingPhase::Id)) => (ID_SIZE - self.offset) as nat,
            Some((m, SendingPhase::Len)) => (2 - self.offset) as nat,
            Some((m, SendingPhase::Content)) => (m.content@.len() - self.offset) as nat,
            None => 0,
        }
    }

    pub fn new() -> (r: Self)
        ensures
            r.wf(),
            r.message() is None,
    {
        Encoder { sending: None, offset: 0 }
    }

    /// Starts writing a message. A message whose content is larger than allowed is refused,
    /// and nothing changes.
    pub fn start(&mut self, message: Message) -> (r: Result<(), LengthError>)
        requires
            old(self).wf(),
            old(self).message() is None,
        ensures
            final(self).wf(),
            r is Err <==> message.content@.len() > MAX_MESSAGE_SIZE,
            r is Err ==> final(self).message() is None,
            r is Ok ==> final(self).message() == Some(message) && final(self).sent() == 0,
    {
        if message.content.len() > MAX_MESSAGE_SIZE as usize {
            return Err(LengthError);
        }
        self.sending = Some((message, SendingPhase::Id));
        self.offset = 0;
        Ok(())
    }

    /// The bytes to write next: the rest of the current part of the message's frame; nothing
    /// when no message is being written.
    pub fn pending(&self) -> (r: Vec<u8>)
        requires
            self.wf(),
        ensures
            r@.len() == self.pending_len(),
            self.message() matches Some(m) ==> r@ == message_frame(m.id@, m.content@).subrange(
                self.sent() as int,
                (self.sent() + r@.len()) as int,
            ),
    {
        match &self.sending {
            None => Vec::new(),
            Some((m, phase)) => {
                let part: Vec<u8> = match phase {
                    SendingPhase::Id => copy_of(&m.id),
                    SendingPhase::Len => {
                        let b = be16_bytes(m.content.len() as u16);
                        copy_of(&b)
                    },
                    SendingPhase::Content => copy_of(m.content.as_slice()),
                };
                let r = suffix(part.as_slice(), self.offset);
                proof {
                    let f = message_frame(m.id@, m.content@);
                    lemma_be16(m.content@.len() as u16);
                    match phase {
                        SendingPhase::Id => {
                            assert(f.subrange(self.offset as int, ID_SIZE as int) =~= m.id@.skip(self.offset as int));
                        },
                        SendingPhase::Len => {
                            assert(f.subrange(ID_SIZE + self.offset, ID_SIZE + 2) =~= be16(m.content@.len() as u16).skip(
                                self.offset as int,
                            ));
                        },
                        SendingPhase::Content => {
                            assert(f.subrange(ID_SIZE + 2 + self.offset, f.len() as int) =~= m.content@.skip(
                                self.offset as int,
                            ));
                        },
                    }
                }
                r
            },
        }
    }

    /// Notes that the first `n` pending bytes were written. Returns whether the message is now
    /// written whole (after its length, for empty content), the encoder being free for the next
    /// one.
    pub fn written(&mut self, n: usize) -> (r: bool)
        requires
            old(self).wf(),
            old(self).message() is Some,
            0 < n <= old(self).pending_len(),
        ensures
            final(self).wf(),
            r <==> old(self).sent() + n == message_frame(
                old(self).message()->Some_0.id@,
                old(self).message()->Some_0.content@,
            ).len(),
            r ==> final(self).message() is None,
            !r ==> final(self).message() == old(self).message() && final(self).sent() == old(self).sent() + n,
            !r ==> final(self).pending_len() > 0,
    {
        let ghost m0 = self.message()->Some_0;
        proof {
            lemma_be16(m0.content@.len() as u16);
        }
        let sending = self.sending.take();
        match sending {
            None => false,
            Some((m, phase)) => {
                let offset = self.offset + n;
                match phase {
                    SendingPhase::Id => {
                        if offset >= ID_SIZE {
                            self.sending = Some((m, SendingPhase::Len));
                            self.offset = 0;
                        } else {
                            self.sending = Some((m, SendingPhase::Id));
                            self.offset = offset;
                        }
                        false
                    },
                    SendingPhase::Len => {
                        if offset >= 2 && m.content.len() == 0 {
                            self.offset = 0;
                            true
                        } else if offset >= 2 {
                            self.sending = Some((m, SendingPhase::Content));
                            self.offset = 0;
                            false
                        } else {
                            self.sending = Some((m, SendingPhase::Len));
                            self.offset = offset;
                            false
                        }
                    },
                    SendingPhase::Content => {
                        if offset >= m.content.len() {
                            self.offset = 0;
                            true
                        } else {
                            self.sending = Some((m, SendingPhase::Content));
                            self.offset = offset;
                            false
                        }
                    },
                }
            },
        }
    }
}

/// A copy of the bytes.
fn copy_of(s: &[u8]) -> (r: Vec<u8>)
    ensures
        r@ == s@,
{
    let mut r: Vec<u8> = Vec::new();
    let mut i: usize = 0;
    while i < s.len()
        invariant
            i <= s@.len(),
            r@ == s@.take(i as int),
        decreases s@.len() - i,
    {
        r.push(s[i]);
        proof {
            assert(s@.take(i + 1) =~= s@.take(i as int).push(s@[i as int]));
        }
        i = i + 1;
    }
    assert(s@.take(s@.len() as int) =~= s@);
    r
}

/// The bytes of `s` from index `from` on.
fn suffix(s: &[u8], from: usize) -> (r: Vec<u8>)
    requires
        from <= s@.len(),
    ensures
        r@ == s@.skip(from as int),
{
    let mut r: Vec<u8> = Vec::new();
    let mut i: usize = from;
    while i < s.len()
        invariant
            from <= i <= s@.len(),
            r@ == s@.subrange(from as int, i as int),
        decreases s@.len() - i,
    {
        r.push(s[i]);
        proof {
            assert(s@.subrange(from as int, i + 1) =~= s@.subrange(from as int, i as int).push(s@[i as int]));
        }
        i = i + 1;
    }
    assert(s@.subrange(from as int, s@.len() as int) =~= s@.skip(from as int));
    r
}

/// Turns a reader into a source of messages: the reader, with the decoder of its frames.
pub struct MessageStream<R> {
    pub read: R,
    pub decoder: Decoder,
}

impl<R> MessageStream<R> {
    pub fn new(read: R) -> (r: Self)
        ensures
            r.read == read,
            r.decoder.wf(),
            r.decoder.received() == Seq::<u8>::empty(),
            r.decoder.spec_wanted() == ID_SIZE,
    {
        MessageStream { read, decoder: Decoder::new() }
    }
}

/// Turns a writer into a sink of messages: the writer, with the encoder of its frames.
pub struct MessageSink<W> {
    pub write: W,
    pub encoder: Encoder,
}

impl<W> MessageSink<W> {
    pub fn new(write: W) -> (r: Self)
        ensures
            r.write == write,
            r.encoder.wf(),
            r.encoder.message() is None,
    {
        MessageSink { write, encoder: Encoder::new() }
    }
}


/// The bytes of messages on the wire, one after the other (each an id and a content).
pub open spec fn message_frames(msgs: Seq<(Seq<u8>, Seq<u8>)>) -> Seq<u8>
    decreases msgs.len(),
{
    if msgs.len() == 0 {
        Seq::empty()
    } else {
        message_frame(msgs[0].0, msgs[0].1) + message_frames(msgs.drop_first())
    }
}

/// Whether the bytes received of the current message complete it, by the length they carry:
/// [`Decoder::push`] returns a message exactly when this holds.
pub open spec fn completes_message(all: Seq<u8>) -> bool {
    all.len() >= ID_SIZE + 2 && all.len() == ID_SIZE + 2 + from_be16(all[32], all[33])
}

/// Messages written one after the other read back one by one, empty content included. Of a
/// stream that starts with the frames of `msgs` (ids of `ID_SIZE` bytes, content of at most
/// `MAX_MESSAGE_SIZE` bytes), the only prefix that completes a message is the first frame; the
/// message it gives is the first of `msgs`, whatever bytes follow; and what follows it is the
/// stream of the other messages. A decoder that has received nothing and is fed the stream thus
/// returns `msgs[0]` and has received nothing again at the start of the frames of the rest.
pub proof fn lemma_frames_read_back(msgs: Seq<(Seq<u8>, Seq<u8>)>, rest: Seq<u8>, n: int)
    requires
        msgs.len() > 0,
        forall|i: int| 0 <= i < msgs.len() ==> (#[trigger] msgs[i]).0.len() == ID_SIZE && msgs[i].1.len()
            <= MAX_MESSAGE_SIZE,
        0 <= n <= (message_frames(msgs) + rest).len(),
    ensures
        ({
            let stream = message_frames(msgs) + rest;
            let first = message_frame(msgs[0].0, msgs[0].1);
            &&& completes_message(stream.take(n)) <==> n == first.len()
            &&& n == first.len() ==> stream.take(n) == first && stream.skip(n) == message_frames(
                msgs.drop_first(),
            ) + rest
            &&& n == first.len() ==> forall|id: Seq<u8>, content: Seq<u8>|
                id.len() == ID_SIZE && #[trigger] message_frame(id, content) == stream.take(n) ==> id
                    == msgs[0].0 && content == msgs[0].1
        }),
{
    let stream = message_frames(msgs) + rest;
    let (id0, c0) = msgs[0];
    assert(msgs[0].0.len() == ID_SIZE && msgs[0].1.len() <= MAX_MESSAGE_SIZE);
    let first = message_frame(id0, c0);
    lemma_be16(c0.len() as u16);
    let len = ID_SIZE + 2 + c0.len();
    assert(first.len() == len);
    assert(stream =~= first + (message_frames(msgs.drop_first()) + rest));
    if n >= ID_SIZE + 2 {
        let all = stream.take(n);
        assert(all[32] == first[32] && all[33] == first[33]);
        assert(first[32] == be16(c0.len() as u16)[0] && first[33] == be16(c0.len() as u16)[1]);
    }
    if n == len {
        assert(stream.take(n) =~= first);
        assert(stream.skip(n) =~= message_frames(msgs.drop_first()) + rest);
        assert forall|id: Seq<u8>, content: Seq<u8>|
            id.len() == ID_SIZE && #[trigger] message_frame(id, content) == stream.take(n) implies id == id0
                && content == c0 by {
            let f = message_frame(id, content);
            assert(f.subrange(0, 32) =~= id);
            assert(first.subrange(0, 32) =~= id0);
            lemma_be16(content.len() as u16);
            assert(f[32] == first[32] && f[33] == first[33]);
            assert(f.len() == first.len());
            assert(f.skip(34) =~= content);
            assert(first.skip(34) =~= c0);
        }
    }
}

} // verus!
