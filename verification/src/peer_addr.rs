//! Address of a peer: a socket address together with the transport protocol.

use crate::ip::{IpAddr, SocketAddr};
use vstd::prelude::*;

verus! {

/// The port a peer listens on, with its protocol.
#[derive(Clone, Copy, Debug, PartialEq, Eq, Structural, Hash)]
pub enum PeerPort {
    Tcp(u16),
    Quic(u16),
}

/// Address of a peer.
#[derive(Clone, Copy, Debug, PartialEq, Eq, Structural, PartialOrd, Ord, Hash)]
pub enum PeerAddr {
    Tcp(SocketAddr),
    Quic(SocketAddr),
}

/// Transport protocol named in the textual form of a peer address.
#[derive(Clone, Copy, Debug, PartialEq, Eq, Structural)]
pub enum Protocol {
    Tcp,
    Quic,
}

/// Why the textual form of a peer address was refused.
#[derive(Clone, Copy, Debug, PartialEq, Eq, Structural)]
pub enum PeerAddrParseError {
    /// There is no '/' between the protocol and the socket address.
    MissingDelimiter,
    /// The part after '/' is not a socket address.
    InvalidSocketAddr,
    /// The part before '/' is neither "tcp" nor "quic" (in any letter case).
    UnknownProtocol,
}

impl PeerAddr {
    pub open spec fn spec_socket_addr(self) -> SocketAddr {
        match self {
            PeerAddr::Tcp(addr) => addr,
            PeerAddr::Quic(addr) => addr,
        }
    }

    pub open spec fn spec_ip(self) -> IpAddr {
        self.spec_socket_addr().spec_ip()
    }

    pub fn socket_addr(&self) -> (r: &SocketAddr)
        ensures
            *r == self.spec_socket_addr(),
    {
        match self {
            PeerAddr::Tcp(addr) => addr,
            PeerAddr::Quic(addr) => addr,
        }
    }

    pub fn ip(&self) -> (r: IpAddr)
        ensures
            r == self.spec_socket_addr().spec_ip(),
    {
        self.socket_addr().ip()
    }

    pub fn port(&self) -> (r: u16)
        ensures
            r == self.spec_socket_addr().spec_port(),
    {
        self.socket_addr().port()
    }

    pub fn set_port(&mut self, port: u16)
        ensures
            final(self).spec_socket_addr().spec_port() == port,
            final(self).spec_socket_addr().spec_ip() == old(self).spec_socket_addr().spec_ip(),
            (*final(self) is Tcp) == (*old(self) is Tcp),
    {
        match self {
            PeerAddr::Tcp(addr) => addr.set_port(port),
            PeerAddr::Quic(addr) => addr.set_port(port),
        }
    }

    pub fn peer_port(&self) -> (r: PeerPort)
        ensures
            r == (match *self {
                PeerAddr::Tcp(addr) => PeerPort::Tcp(addr.spec_port()),
                PeerAddr::Quic(addr) => PeerPort::Quic(addr.spec_port()),
            }),
    {
        match self {
            PeerAddr::Tcp(addr) => PeerPort::Tcp(addr.port()),
            PeerAddr::Quic(addr) => PeerPort::Quic(addr.port()),
        }
    }

    pub fn is_quic(&self) -> (r: bool)
        ensures
            r == (*self is Quic),
    {
        match self {
            PeerAddr::Tcp(_) => false,
            PeerAddr::Quic(_) => true,
        }
    }

    pub fn is_tcp(&self) -> (r: bool)
        ensures
            r == (*self is Tcp),
    {
        match self {
            PeerAddr::Tcp(_) => true,
            PeerAddr::Quic(_) => false,
        }
    }

    /// Builds the peer address from the parts of its textual form `{proto}/{addr}`: the
    /// protocol part and the result of parsing the socket address part.
    pub fn from_parts(proto: &[u8], addr: Option<SocketAddr>) -> (r: Result<
        PeerAddr,
        PeerAddrParseError,
    >)
        ensures
            r == (match addr {
                None => Err(PeerAddrParseError::InvalidSocketAddr),
                Some(a) => match spec_protocol(proto@) {
                    Some(Protocol::Tcp) => Ok(PeerAddr::Tcp(a)),
                    Some(Protocol::Quic) => Ok(PeerAddr::Quic(a)),
                    None => Err(PeerAddrParseError::UnknownProtocol),
                },
            }),
    {
        let addr = match addr {
            Some(addr) => addr,
            None => return Err(PeerAddrParseError::InvalidSocketAddr),
        };
        match parse_protocol(proto) {
            Some(Protocol::Tcp) => Ok(PeerAddr::Tcp(addr)),
            Some(Protocol::Quic) => Ok(PeerAddr::Quic(addr)),
            None => Err(PeerAddrParseError::UnknownProtocol),
        }
    }
}

/// ASCII lower case of a byte.
pub open spec fn lower(b: u8) -> u8 {
    if 65 <= b <= 90 {
        (b + 32) as u8
    } else {
        b
    }
}

/// Whether `s` equals the lower-case ASCII word `word`, ignoring the letter case of `s`.
pub open spec fn eq_ignore_ascii_case(s: Seq<u8>, word: Seq<u8>) -> bool {
    s.len() == word.len() && forall|i: int| 0 <= i < s.len() ==> lower(#[trigger] s[i]) == word[i]
}

pub open spec fn tcp_word() -> Seq<u8> {
    seq![116u8, 99u8, 112u8]
}

pub open spec fn quic_word() -> Seq<u8> {
    seq![113u8, 117u8, 105u8, 99u8]
}

/// The protocol that the textual protocol part names.
pub open spec fn spec_protocol(proto: Seq<u8>) -> Option<Protocol> {
    if eq_ignore_ascii_case(proto, tcp_word()) {
        Some(Protocol::Tcp)
    } else if eq_ignore_ascii_case(proto, quic_word()) {
        Some(Protocol::Quic)
    } else {
        None
    }
}

/// The protocol word at the front of the textual form of `addr`: "tcp" or "quic".
pub open spec fn protocol_text(addr: PeerAddr) -> Seq<char> {
    match addr {
        PeerAddr::Tcp(_) => "tcp"@,
        PeerAddr::Quic(_) => "quic"@,
    }
}

/// The textual form of a peer address reads back as it: its protocol word, written in any
/// letter case, names its protocol, and with its socket address gives the same peer address.
pub proof fn lemma_protocol_text_round_trip(addr: PeerAddr, proto: Seq<u8>)
    requires
        proto.len() == protocol_text(addr).len(),
        // Each letter in lower or upper case.
        forall|i: int|
            0 <= i < proto.len() ==> #[trigger] proto[i] as int == protocol_text(addr)[i] as int || proto[i] as int
                == protocol_text(addr)[i] as int - 32,
    ensures
        spec_protocol(proto) == Some(if addr is Tcp { Protocol::Tcp } else { Protocol::Quic }),
        (match spec_protocol(proto) {
            Some(Protocol::Tcp) => Some(PeerAddr::Tcp(addr.spec_socket_addr())),
            Some(Protocol::Quic) => Some(PeerAddr::Quic(addr.spec_socket_addr())),
            None => None,
        }) == Some(addr),
{
    reveal_strlit("tcp");
    reveal_strlit("quic");
    let t = protocol_text(addr);
    if addr is Tcp {
        assert(t[0] == 't' && t[1] == 'c' && t[2] == 'p');
        assert(proto.len() == 3);
        assert(lower(proto[0]) == 116 && lower(proto[1]) == 99 && lower(proto[2]) == 112);
        assert(eq_ignore_ascii_case(proto, tcp_word()));
    } else {
        assert(t[0] == 'q' && t[1] == 'u' && t[2] == 'i' && t[3] == 'c');
        assert(proto.len() == 4);
        assert(lower(proto[0]) == 113 && lower(proto[1]) == 117 && lower(proto[2]) == 105 && lower(proto[3]) == 99);
        assert(eq_ignore_ascii_case(proto, quic_word()));
        assert(!eq_ignore_ascii_case(proto, tcp_word()));
    }
}

/// Only the two protocol words name a protocol: a protocol part that names one is that
/// protocol's word, each letter in lower or upper case.
pub proof fn lemma_only_protocol_words_name_protocols(proto: Seq<u8>)
    ensures
        spec_protocol(proto) matches Some(p) ==> {
            let word = if p == Protocol::Tcp { "tcp"@ } else { "quic"@ };
            &&& proto.len() == word.len()
            &&& forall|i: int|
                0 <= i < proto.len() ==> #[trigger] proto[i] as int == word[i] as int || proto[i] as int == word[i] as int
                    - 32
        },
{
    reveal_strlit("tcp");
    reveal_strlit("quic");
    if let Some(p) = spec_protocol(proto) {
        let word = if p == Protocol::Tcp { "tcp"@ } else { "quic"@ };
        let w = if p == Protocol::Tcp { tcp_word() } else { quic_word() };
        assert(eq_ignore_ascii_case(proto, w));
        assert forall|i: int| 0 <= i < proto.len() implies #[trigger] proto[i] as int == word[i] as int || proto[i] as int
            == word[i] as int - 32 by {
            assert(lower(proto[i]) == w[i]);
            if p == Protocol::Tcp {
                assert(word[0] == 't' && word[1] == 'c' && word[2] == 'p');
            } else {
                assert(word[0] == 'q' && word[1] == 'u' && word[2] == 'i' && word[3] == 'c');
            }
        }
    }
}

fn to_lower(b: u8) -> (r: u8)
    ensures
        r == lower(b),
{
    if 65 <= b && b <= 90 {
        b + 32
    } else {
        b
    }
}

fn matches_word(s: &[u8], word: &[u8]) -> (r: bool)
    ensures
        r == eq_ignore_ascii_case(s@, word@),
{
    if s.len() != word.len() {
        return false;
    }
    let mut i: usize = 0;
    while i < s.len()
        invariant
            s@.len() == word@.len(),
            i <= s@.len(),
            forall|j: int| 0 <= j < i ==> lower(#[trigger] s@[j]) == word@[j],
        decreases s@.len() - i,
    {
        if to_lower(s[i]) != word[i] {
            return false;
        }
        i = i + 1;
    }
    true
}

/// Recognises the protocol part of a peer address, ignoring letter case.
pub fn parse_protocol(proto: &[u8]) -> (r: Option<Protocol>)
    ensures
        r == spec_protocol(proto@),
{
    let tcp: [u8; 3] = [116u8, 99u8, 112u8];
    let quic: [u8; 4] = [113u8, 117u8, 105u8, 99u8];
    assert(tcp@ =~= tcp_word());
    assert(quic@ =~= quic_word());
    if matches_word(proto, tcp.as_slice()) {
        Some(Protocol::Tcp)
    } else if matches_word(proto, quic.as_slice()) {
        Some(Protocol::Quic)
    } else {
        None
    }
}

/// Position of the first '/' in the text, which separates the protocol from the socket address.
pub fn find_delimiter(s: &[u8]) -> (r: Option<usize>)
    ensures
        r matches Some(i) ==> i < s@.len() && s@[i as int] == 47u8 && forall|j: int|
            0 <= j < i ==> s@[j] != 47u8,
        r is None ==> forall|j: int| 0 <= j < s@.len() ==> s@[j] != 47u8,
{
    let mut i: usize = 0;
    while i < s.len()
        invariant
            i <= s@.len(),
            forall|j: int| 0 <= j < i ==> s@[j] != 47u8,
        decreases s@.len() - i,
    {
        if s[i] == 47u8 {
            return Some(i);
        }
        i = i + 1;
    }
    None
}

} // verus!
