//! Streams and sinks of content on a repository's channel.

use vstd::prelude::*;

verus! {

/// Identifies the channel of a repository on a connection.
#[derive(Clone, Copy, PartialEq, Eq, Hash, Debug)]
pub struct ChannelId(pub [u8; 32]);

impl ChannelId {
    /// The all-zero channel id.
    pub fn zero() -> (r: Self)
        ensures
            r.0@ == Seq::new(32, |i: int| 0u8),
    {
        let r = ChannelId([0u8; 32]);
        assert(r.0@ =~= Seq::new(32, |i: int| 0u8));
        r
    }
}

/// Something that carries the content of one channel.
pub trait OnChannel {
    /// The channel it carries.
    spec fn spec_channel(&self) -> ChannelId;

    fn channel(&self) -> (r: &ChannelId)
        ensures
            *r == self.spec_channel(),
    ;
}

/// Receives the content of a channel.
pub struct ContentStream<S> {
    pub unreliable_stream: S,
}

impl<S: OnChannel> ContentStream<S> {
    pub fn new(unreliable_stream: S) -> (r: Self)
        ensures
            r.unreliable_stream == unreliable_stream,
    {
        ContentStream { unreliable_stream }
    }

    /// The channel of the underlying stream.
    pub fn channel(&self) -> (r: &ChannelId)
        ensures
            *r == self.unreliable_stream.spec_channel(),
    {
        self.unreliable_stream.channel()
    }
}

impl<S: OnChannel> OnChannel for ContentStream<S> {
    open spec fn spec_channel(&self) -> ChannelId {
        self.unreliable_stream.spec_channel()
    }

    fn channel(&self) -> (r: &ChannelId) {
        self.unreliable_stream.channel()
    }
}

/// Sends content on a channel.
pub struct ContentSink<S> {
    pub unreliable_sink: S,
}

impl<S: OnChannel> ContentSink<S> {
    pub fn new(unreliable_sink: S) -> (r: Self)
        ensures
            r.unreliable_sink == unreliable_sink,
    {
        ContentSink { unreliable_sink }
    }

    /// The channel of the underlying sink.
    pub fn channel(&self) -> (r: &ChannelId)
        ensures
            *r == self.unreliable_sink.spec_channel(),
    {
        self.unreliable_sink.channel()
    }
}

impl<S: OnChannel> OnChannel for ContentSink<S> {
    open spec fn spec_channel(&self) -> ChannelId {
        self.unreliable_sink.spec_channel()
    }

    fn channel(&self) -> (r: &ChannelId) {
        self.unreliable_sink.channel()
    }
}

} // verus!
