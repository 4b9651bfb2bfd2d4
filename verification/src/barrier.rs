//! Barrier: ensures there are no more in-flight messages between us and the peer.
//!
//! Both peers pick a random barrier id, send it to each other (step 0) and echo the id they
//! received (step 1). A peer is done once it received its own id back, in step 1 of the same
//! round as its own. Messages of any other round, step or barrier instance start a new round;
//! after round 64 the barrier fails.
//!
//! The exchange itself (sending, receiving with a timeout) is done by the caller, which feeds
//! each outcome to [`BarrierMachine::step`] and performs the action it returns.

use crate::random::random_u64;
use vstd::prelude::*;

verus! {

/// Seconds to wait for a message from the peer.
pub const RECV_TIMEOUT_SECS: u64 = 3;

/// Length of a barrier message in bytes.
pub const MSG_SIZE: usize = 37;

/// The last round that may be started.
pub const MAX_ROUND: u32 = 64;

/// Little-endian bytes of a `u64`.
pub open spec fn le_u64(v: u64) -> Seq<u8> {
    seq![
        v as u8,
        (v >> 8u64) as u8,
        (v >> 16u64) as u8,
        (v >> 24u64) as u8,
        (v >> 32u64) as u8,
        (v >> 40u64) as u8,
        (v >> 48u64) as u8,
        (v >> 56u64) as u8,
    ]
}

/// Little-endian bytes of a `u32`.
pub open spec fn le_u32(v: u32) -> Seq<u8> {
    seq![v as u8, (v >> 8u32) as u8, (v >> 16u32) as u8, (v >> 24u32) as u8]
}

/// "barrier-start"
pub open spec fn msg_prefix() -> Seq<u8> {
    seq![0x62u8, 0x61, 0x72, 0x72, 0x69, 0x65, 0x72, 0x2d, 0x73, 0x74, 0x61, 0x72, 0x74]
}

/// "barrier-end"
pub open spec fn msg_suffix() -> Seq<u8> {
    seq![0x62u8, 0x61, 0x72, 0x72, 0x69, 0x65, 0x72, 0x2d, 0x65, 0x6e, 0x64]
}

/// The message carrying a barrier id, a round and a step.
pub open spec fn message_bytes(barrier_id: u64, round: u32, step: u8) -> Seq<u8> {
    msg_prefix() + le_u64(barrier_id) + le_u32(round) + seq![step] + msg_suffix()
}

proof fn lemma_le_u64_inverse(v: u64)
    ensures
        ((v as u8) as u64) | (((v >> 8u64) as u8) as u64) << 8u64 | (((v >> 16u64) as u8) as u64) << 16u64
            | (((v >> 24u64) as u8) as u64) << 24u64 | (((v >> 32u64) as u8) as u64) << 32u64 | (((v
            >> 40u64) as u8) as u64) << 40u64 | (((v >> 48u64) as u8) as u64) << 48u64 | (((v
            >> 56u64) as u8) as u64) << 56u64 == v,
{
    assert(((v as u8) as u64) | (((v >> 8u64) as u8) as u64) << 8u64 | (((v >> 16u64) as u8) as u64)
        << 16u64 | (((v >> 24u64) as u8) as u64) << 24u64 | (((v >> 32u64) as u8) as u64) << 32u64
        | (((v >> 40u64) as u8) as u64) << 40u64 | (((v >> 48u64) as u8) as u64) << 48u64 | (((v
        >> 56u64) as u8) as u64) << 56u64 == v) by (bit_vector);
}

proof fn lemma_u64_from_le(b0: u8, b1: u8, b2: u8, b3: u8, b4: u8, b5: u8, b6: u8, b7: u8, v: u64)
    requires
        v == (b0 as u64) | (b1 as u64) << 8u64 | (b2 as u64) << 16u64 | (b3 as u64) << 24u64 | (b4 as u64)
            << 32u64 | (b5 as u64) << 40u64 | (b6 as u64) << 48u64 | (b7 as u64) << 56u64,
    ensures
        le_u64(v) == seq![b0, b1, b2, b3, b4, b5, b6, b7],
{
    assert(v as u8 == b0 && (v >> 8u64) as u8 == b1 && (v >> 16u64) as u8 == b2 && (v >> 24u64) as u8
        == b3 && (v >> 32u64) as u8 == b4 && (v >> 40u64) as u8 == b5 && (v >> 48u64) as u8 == b6 && (v
        >> 56u64) as u8 == b7) by (bit_vector)
        requires
            v == (b0 as u64) | (b1 as u64) << 8u64 | (b2 as u64) << 16u64 | (b3 as u64) << 24u64 | (b4
                as u64) << 32u64 | (b5 as u64) << 40u64 | (b6 as u64) << 48u64 | (b7 as u64) << 56u64,
    ;
    assert(le_u64(v) =~= seq![b0, b1, b2, b3, b4, b5, b6, b7]);
}

proof fn lemma_le_u32_inverse(v: u32)
    ensures
        ((v as u8) as u32) | (((v >> 8u32) as u8) as u32) << 8u32 | (((v >> 16u32) as u8) as u32) << 16u32
            | (((v >> 24u32) as u8) as u32) << 24u32 == v,
{
    assert(((v as u8) as u32) | (((v >> 8u32) as u8) as u32) << 8u32 | (((v >> 16u32) as u8) as u32)
        << 16u32 | (((v >> 24u32) as u8) as u32) << 24u32 == v) by (bit_vector);
}

proof fn lemma_u32_from_le(b0: u8, b1: u8, b2: u8, b3: u8, v: u32)
    requires
        v == (b0 as u32) | (b1 as u32) << 8u32 | (b2 as u32) << 16u32 | (b3 as u32) << 24u32,
    ensures
        le_u32(v) == seq![b0, b1, b2, b3],
{
    assert(v as u8 == b0 && (v >> 8u32) as u8 == b1 && (v >> 16u32) as u8 == b2 && (v >> 24u32) as u8
        == b3) by (bit_vector)
        requires
            v == (b0 as u32) | (b1 as u32) << 8u32 | (b2 as u32) << 16u32 | (b3 as u32) << 24u32,
    ;
    assert(le_u32(v) =~= seq![b0, b1, b2, b3]);
}

/// The message carrying `barrier_id`, `round` and `step`.
pub fn construct_message(barrier_id: u64, round: u32, step: u8) -> (r: [u8; 37])
    ensures
        r@ == message_bytes(barrier_id, round, step),
{
    let r = [
        0x62u8,
        0x61,
        0x72,
        0x72,
        0x69,
        0x65,
        0x72,
        0x2d,
        0x73,
        0x74,
        0x61,
        0x72,
        0x74,
        barrier_id as u8,
        (barrier_id >> 8u64) as u8,
        (barrier_id >> 16u64) as u8,
        (barrier_id >> 24u64) as u8,
        (barrier_id >> 32u64) as u8,
        (barrier_id >> 40u64) as u8,
        (barrier_id >> 48u64) as u8,
        (barrier_id >> 56u64) as u8,
        round as u8,
        (round >> 8u32) as u8,
        (round >> 16u32) as u8,
        (round >> 24u32) as u8,
        step,
        0x62,
        0x61,
        0x72,
        0x72,
        0x69,
        0x65,
        0x72,
        0x2d,
        0x65,
        0x6e,
        0x64,
    ];
    assert(r@ =~= message_bytes(barrier_id, round, step));
    r
}

/// The message carrying `barrier_id`, `round` and `step`, as a vector.
pub fn message_vec(barrier_id: u64, round: u32, step: u8) -> (r: Vec<u8>)
    ensures
        r@ == message_bytes(barrier_id, round, step),
{
    let a = construct_message(barrier_id, round, step);
    let mut r: Vec<u8> = Vec::new();
    let mut i: usize = 0;
    while i < MSG_SIZE
        invariant
            i <= MSG_SIZE,
            a@.len() == MSG_SIZE,
            r@ == a@.take(i as int),
        decreases MSG_SIZE - i,
    {
        r.push(a[i]);
        i = i + 1;
    }
    assert(a@.take(MSG_SIZE as int) =~= a@);
    r
}

/// Whether `data` holds `expected` from index `at` on.
fn holds_at(data: &[u8], at: usize, expected: &[u8]) -> (r: bool)
    requires
        at + expected@.len() <= data@.len(),
    ensures
        r == (data@.subrange(at as int, at + expected@.len()) == expected@),
{
    let mut i: usize = 0;
    while i < expected.len()
        invariant
            i <= expected@.len(),
            at + expected@.len() <= data@.len(),
            data@.len() == data.len(),
            forall|j: int| 0 <= j < i ==> data@[at + j] == expected@[j],
        decreases expected@.len() - i,
    {
        if data[at + i] != expected[i] {
            assert(data@.subrange(at as int, at + expected@.len())[i as int] != expected@[i as int]);
            return false;
        }
        i = i + 1;
    }
    assert(data@.subrange(at as int, at + expected@.len()) =~= expected@);
    true
}

/// The barrier id, round and step that `bytes` carry, if they are a barrier message.
pub open spec fn decoded(bytes: Seq<u8>) -> Option<(u64, u32, u8)> {
    if exists|id: u64, round: u32, step: u8| bytes == #[trigger] message_bytes(id, round, step) {
        Some(choose|id: u64, round: u32, step: u8| bytes == #[trigger] message_bytes(id, round, step))
    } else {
        None
    }
}

/// The barrier id, round and step of a barrier message, or `None` where `data` is no barrier
/// message (such as a message of the communication that went on before the barrier).
pub fn parse_message(data: &[u8]) -> (r: Option<(u64, u32, u8)>)
    ensures
        r matches Some((id, round, step)) ==> data@ == message_bytes(id, round, step),
        r is None ==> forall|id: u64, round: u32, step: u8| data@ != message_bytes(id, round, step),
        r == decoded(data@),
{
    if data.len() != MSG_SIZE {
        return None;
    }
    let prefix = [0x62u8, 0x61, 0x72, 0x72, 0x69, 0x65, 0x72, 0x2d, 0x73, 0x74, 0x61, 0x72, 0x74];
    let suffix = [0x62u8, 0x61, 0x72, 0x72, 0x69, 0x65, 0x72, 0x2d, 0x65, 0x6e, 0x64];
    assert(prefix@ =~= msg_prefix());
    assert(suffix@ =~= msg_suffix());
    if !holds_at(data, 0, prefix.as_slice()) {
        proof {
            assert forall|id: u64, round: u32, step: u8| data@ != message_bytes(id, round, step) by {
                if data@ == message_bytes(id, round, step) {
                    assert(data@.subrange(0, 13) =~= msg_prefix());
                }
            }
        }
        return None;
    }
    if !holds_at(data, 26, suffix.as_slice()) {
        proof {
            assert forall|id: u64, round: u32, step: u8| data@ != message_bytes(id, round, step) by {
                if data@ == message_bytes(id, round, step) {
                    assert(data@.subrange(26, 37) =~= msg_suffix());
                }
            }
        }
        return None;
    }
    let id: u64 = (data[13] as u64) | (data[14] as u64) << 8u64 | (data[15] as u64) << 16u64
        | (data[16] as u64) << 24u64 | (data[17] as u64) << 32u64 | (data[18] as u64) << 40u64
        | (data[19] as u64) << 48u64 | (data[20] as u64) << 56u64;
    let round: u32 = (data[21] as u32) | (data[22] as u32) << 8u32 | (data[23] as u32) << 16u32
        | (data[24] as u32) << 24u32;
    let step: u8 = data[25];
    proof {
        lemma_u64_from_le(data@[13], data@[14], data@[15], data@[16], data@[17], data@[18], data@[19], data@[20], id);
        lemma_u32_from_le(data@[21], data@[22], data@[23], data@[24], round);
        assert(data@ =~= message_bytes(id, round, step)) by {
            assert(data@.subrange(0, 13) =~= msg_prefix());
            assert(data@.subrange(26, 37) =~= msg_suffix());
            assert forall|j: int| 0 <= j < 37 implies data@[j] == message_bytes(id, round, step)[j] by {
                if j < 13 {
                    assert(data@[j] == data@.subrange(0, 13)[j]);
                } else if j >= 26 {
                    assert(data@[j] == data@.subrange(26, 37)[j - 26]);
                }
            }
        }
        let (a, b, c) = choose|a: u64, b: u32, c: u8| data@ == #[trigger] message_bytes(a, b, c);
        lemma_message_roundtrip(a, b, c, id, round, step);
    }
    Some((id, round, step))
}

/// A barrier message reads back as what it carries, and no other bytes read as it.
pub proof fn lemma_message_roundtrip(id: u64, round: u32, step: u8, id2: u64, round2: u32, step2: u8)
    ensures
        message_bytes(id, round, step) == message_bytes(id2, round2, step2) ==> id == id2 && round
            == round2 && step == step2,
        message_bytes(id, round, step).len() == MSG_SIZE,
{
    lemma_le_u64_inverse(id);
    lemma_le_u64_inverse(id2);
    lemma_le_u32_inverse(round);
    lemma_le_u32_inverse(round2);
    let a = message_bytes(id, round, step);
    let b = message_bytes(id2, round2, step2);
    if a == b {
        assert(a[13] == b[13] && a[14] == b[14] && a[15] == b[15] && a[16] == b[16]);
        assert(a[17] == b[17] && a[18] == b[18] && a[19] == b[19] && a[20] == b[20]);
        assert(a[21] == b[21] && a[22] == b[22] && a[23] == b[23] && a[24] == b[24]);
        assert(a[25] == b[25]);
    }
}

/// Why a barrier did not complete.
#[derive(Clone, Copy, PartialEq, Eq, Debug, Structural)]
pub enum BarrierError {
    /// The peers did not agree within the allowed number of rounds.
    Failure,
    /// The channel to the peer was closed.
    ChannelClosed,
    /// No message came from the peer in time.
    Timeout,
}

/// Where a barrier stands.
#[derive(Clone, Copy, PartialEq, Eq, Debug, Structural)]
pub enum BarrierPhase {
    /// Nothing has been sent yet.
    Start,
    /// The empty message was sent; the first round starts once that is done.
    Opened,
    /// Our step-0 message of the round was sent; waiting for the peer's step-0 message.
    AwaitingStep0 { round: u32 },
    /// Our step-0 message was sent again for a later round; the step-1 message follows.
    Resent { round: u32, their_barrier_id: u64 },
    /// Our step-1 message was sent; waiting for the peer's step-1 message.
    AwaitingStep1 { round: u32 },
    /// The barrier completed.
    Done,
    /// The barrier failed.
    Failed(BarrierError),
}

/// What happened since the last step.
#[derive(Clone, PartialEq, Eq, Debug)]
pub enum BarrierEvent {
    /// The last message was sent.
    Sent,
    /// A message came from the peer.
    Received(Vec<u8>),
    /// No message came from the peer in time.
    TimedOut,
    /// The channel was closed.
    Closed,
}

/// What to do next.
#[derive(Clone, PartialEq, Eq, Debug)]
pub enum BarrierAction {
    /// Send these bytes, then report `Sent`.
    Send(Vec<u8>),
    /// Wait for a message from the peer, at most the receive timeout.
    Receive,
    /// The barrier completed.
    Finish,
    /// The barrier failed.
    Fail(BarrierError),
}

/// The state of a barrier run by one peer.
pub struct BarrierMachine {
    pub barrier_id: u64,
    pub phase: BarrierPhase,
}

/// The action of sending our message of a step.
pub open spec fn sends(a: BarrierAction, barrier_id: u64, round: u32, step: u8) -> bool {
    a matches BarrierAction::Send(bytes) && bytes@ == message_bytes(barrier_id, round, step)
}

/// The round after `round` and `their_round`, or `None` on overflow.
pub open spec fn following_round(round: u32, their_round: u32) -> Option<u32> {
    let m = if round < their_round { their_round } else { round };
    if m < u32::MAX { Some((m + 1) as u32) } else { None }
}

/// Whether the phase is a waiting one of a round that may be started.
pub open spec fn phase_ok(p: BarrierPhase) -> bool {
    match p {
        BarrierPhase::AwaitingStep0 { round } => round <= MAX_ROUND,
        _ => true,
    }
}

/// What the barrier does with the bytes received while waiting for the peer's step-0 message
/// of `round`, `next` being the phase it moves to: what is no barrier message, or no step-0
/// message, is skipped; a step-0 message of our round is answered by our step-1 message echoing
/// the peer's barrier id; one of a later round makes us send our step 0 again in that round;
/// one of an earlier round starts the round after ours, which fails past the last round.
pub open spec fn step0_reply(barrier_id: u64, round: u32, bytes: Seq<u8>, r: BarrierAction, next: BarrierPhase) -> bool {
    match decoded(bytes) {
        None => r == BarrierAction::Receive && next == (BarrierPhase::AwaitingStep0 { round }),
        Some((id, their_round, step)) => if step != 0 {
            r == BarrierAction::Receive && next == (BarrierPhase::AwaitingStep0 { round })
        } else if their_round == round {
            sends(r, id, round, 1) && next == (BarrierPhase::AwaitingStep1 { round })
        } else if round < their_round {
            sends(r, barrier_id, their_round, 0) && next == (BarrierPhase::Resent {
                round: their_round,
                their_barrier_id: id,
            })
        } else if round + 1 > MAX_ROUND {
            r == BarrierAction::Fail(BarrierError::Failure) && next == BarrierPhase::Failed(BarrierError::Failure)
        } else {
            sends(r, barrier_id, (round + 1) as u32, 0) && next == (BarrierPhase::AwaitingStep0 {
                round: (round + 1) as u32,
            })
        },
    }
}

/// What the barrier does with the bytes received while waiting for the peer's step-1 message of
/// `round`, `next` being the phase it moves to: what is no barrier message, or of a step past 1,
/// is skipped; a step-1 message echoing our barrier id in our round completes the barrier; any
/// other message starts the round after both rounds, which fails past the last round.
pub open spec fn step1_reply(barrier_id: u64, round: u32, bytes: Seq<u8>, r: BarrierAction, next: BarrierPhase) -> bool {
    match decoded(bytes) {
        None => r == BarrierAction::Receive && next == (BarrierPhase::AwaitingStep1 { round }),
        Some((id, their_round, step)) => if step > 1 {
            r == BarrierAction::Receive && next == (BarrierPhase::AwaitingStep1 { round })
        } else if step == 1 && id == barrier_id && their_round == round {
            r == BarrierAction::Finish && next == BarrierPhase::Done
        } else if following_round(round, their_round) is Some && following_round(round, their_round)->Some_0
            <= MAX_ROUND {
            sends(r, barrier_id, following_round(round, their_round)->Some_0, 0) && next == (
            BarrierPhase::AwaitingStep0 { round: following_round(round, their_round)->Some_0 })
        } else {
            r == BarrierAction::Fail(BarrierError::Failure) && next == BarrierPhase::Failed(BarrierError::Failure)
        },
    }
}

impl BarrierMachine {
    /// A barrier with a random id.
    pub fn random() -> (r: Self)
        ensures
            r.phase == BarrierPhase::Start,
    {
        BarrierMachine::new(random_u64())
    }

    /// A barrier with the given (randomly chosen) id.
    pub fn new(barrier_id: u64) -> (r: Self)
        ensures
            r.barrier_id == barrier_id,
            r.phase == BarrierPhase::Start,
    {
        BarrierMachine { barrier_id, phase: BarrierPhase::Start }
    }

    /// Starts the given round: fails past the last round, else sends our step-0 message.
    fn start_round(&mut self, round: u32) -> (r: BarrierAction)
        ensures
            final(self).barrier_id == old(self).barrier_id,
            round > MAX_ROUND ==> r == BarrierAction::Fail(BarrierError::Failure) && final(self).phase
                == BarrierPhase::Failed(BarrierError::Failure),
            round <= MAX_ROUND ==> sends(r, old(self).barrier_id, round, 0) && final(self).phase
                == (BarrierPhase::AwaitingStep0 { round }),
    {
        if round > MAX_ROUND {
            self.phase = BarrierPhase::Failed(BarrierError::Failure);
            BarrierAction::Fail(BarrierError::Failure)
        } else {
            self.phase = BarrierPhase::AwaitingStep0 { round };
            BarrierAction::Send(message_vec(self.barrier_id, round, 0))
        }
    }

    /// Starts the round after `round` and `their_round`; fails when there is none.
    fn restart(&mut self, round: u32, their_round: u32) -> (r: BarrierAction)
        ensures
            final(self).barrier_id == old(self).barrier_id,
            following_round(round, their_round) matches Some(n) ==> (n <= MAX_ROUND ==> sends(
                r,
                old(self).barrier_id,
                n,
                0,
            ) && final(self).phase == (BarrierPhase::AwaitingStep0 { round: n })),
            !(following_round(round, their_round) matches Some(n) && n <= MAX_ROUND) ==> r
                == BarrierAction::Fail(BarrierError::Failure) && final(self).phase == BarrierPhase::Failed(
                BarrierError::Failure,
            ),
    {
        let m = if round < their_round { their_round } else { round };
        if m == u32::MAX {
            self.phase = BarrierPhase::Failed(BarrierError::Failure);
            BarrierAction::Fail(BarrierError::Failure)
        } else {
            self.start_round(m + 1)
        }
    }

    /// Advances the barrier by one event and returns what to do next.
    ///
    /// - At the start, the empty message is sent (it breaks the encryption on the other side,
    ///   making it start a barrier too); once it is sent, round 0 starts.
    /// - Starting a round past the last fails; otherwise our step-0 message (our barrier id,
    ///   the round, step 0) is sent.
    /// - Messages that are no barrier message, or of a step other than 0 and 1, are skipped;
    ///   so are step-1 messages while waiting for step 0.
    /// - A step-0 message of our round is answered by our step-1 message, echoing the peer's
    ///   barrier id. One of a later round makes us resend step 0 in that round, then step 1.
    ///   One of an earlier round starts the round after ours.
    /// - While waiting for step 1: a step-1 message echoing our barrier id in our round
    ///   completes the barrier; any other message starts the round after both rounds.
    /// - A timeout or a closed channel fails the barrier.
    pub fn step(&mut self, event: BarrierEvent) -> (r: BarrierAction)
        requires
            phase_ok(old(self).phase),
        ensures
            final(self).barrier_id == old(self).barrier_id,
            phase_ok(final(self).phase),
            r == BarrierAction::Finish <==> final(self).phase == BarrierPhase::Done,
            r matches BarrierAction::Fail(e) ==> final(self).phase == BarrierPhase::Failed(e),
            final(self).phase == BarrierPhase::Done ==> old(self).phase == BarrierPhase::Done || (
            old(self).phase matches BarrierPhase::AwaitingStep1 { round } && event matches BarrierEvent::Received(
                bytes,
            ) && bytes@ == message_bytes(old(self).barrier_id, round, 1)),
            (old(self).phase == BarrierPhase::Start) ==> (r matches BarrierAction::Send(bytes) && bytes@.len()
                == 0) && final(self).phase == BarrierPhase::Opened,
            // A finished or failed barrier stays so.
            old(self).phase == BarrierPhase::Done ==> r == BarrierAction::Finish,
            old(self).phase matches BarrierPhase::Failed(e) ==> r == BarrierAction::Fail(e) && final(self).phase
                == old(self).phase,
            // Once started, a timeout or a closed channel fails it.
            old(self).phase != BarrierPhase::Start && old(self).phase != BarrierPhase::Done
                && !(old(self).phase is Failed) && event == BarrierEvent::TimedOut
                ==> r == BarrierAction::Fail(BarrierError::Timeout),
            old(self).phase != BarrierPhase::Start && old(self).phase != BarrierPhase::Done
                && !(old(self).phase is Failed) && event == BarrierEvent::Closed
                ==> r == BarrierAction::Fail(BarrierError::ChannelClosed),
            (old(self).phase == BarrierPhase::Opened && event == BarrierEvent::Sent) ==> sends(
                r,
                old(self).barrier_id,
                0,
                0,
            ) && final(self).phase == (BarrierPhase::AwaitingStep0 { round: 0 }),
            (old(self).phase == BarrierPhase::Opened && event is Received) ==> r == BarrierAction::Receive
                && final(self).phase == old(self).phase,
            ((old(self).phase is AwaitingStep0 || old(self).phase is AwaitingStep1) && event == BarrierEvent::Sent)
                ==> r == BarrierAction::Receive && final(self).phase == old(self).phase,
            old(self).phase matches BarrierPhase::Resent { round, their_barrier_id } ==> (event is Sent ==> sends(
                r,
                their_barrier_id,
                round,
                1,
            ) && final(self).phase == (BarrierPhase::AwaitingStep1 { round })),
            old(self).phase matches BarrierPhase::AwaitingStep0 { round } ==> (event matches BarrierEvent::Received(
                bytes,
            ) ==> step0_reply(old(self).barrier_id, round, bytes@, r, final(self).phase)),
            old(self).phase matches BarrierPhase::AwaitingStep1 { round } ==> (event matches BarrierEvent::Received(
                bytes,
            ) ==> step1_reply(old(self).barrier_id, round, bytes@, r, final(self).phase)),
            r matches BarrierAction::Send(bytes) ==> old(self).phase != BarrierPhase::Start ==> exists|
                round: u32,
                step: u8,
                id: u64,
            |
                #![trigger message_bytes(id, round, step)]
                bytes@ == message_bytes(id, round, step) && step <= 1 && (step == 0 ==> id == old(
                    self,
                ).barrier_id),
    {
        match (self.phase, event) {
            (BarrierPhase::Start, _) => {
                self.phase = BarrierPhase::Opened;
                BarrierAction::Send(Vec::new())
            },
            (BarrierPhase::Done, _) => BarrierAction::Finish,
            (BarrierPhase::Failed(e), _) => BarrierAction::Fail(e),
            (_, BarrierEvent::TimedOut) => {
                self.phase = BarrierPhase::Failed(BarrierError::Timeout);
                BarrierAction::Fail(BarrierError::Timeout)
            },
            (_, BarrierEvent::Closed) => {
                self.phase = BarrierPhase::Failed(BarrierError::ChannelClosed);
                BarrierAction::Fail(BarrierError::ChannelClosed)
            },
            (BarrierPhase::Opened, BarrierEvent::Sent) => self.start_round(0),
            (BarrierPhase::Opened, BarrierEvent::Received(_)) => BarrierAction::Receive,
            (BarrierPhase::AwaitingStep0 { round }, BarrierEvent::Sent) => BarrierAction::Receive,
            (BarrierPhase::AwaitingStep1 { round }, BarrierEvent::Sent) => BarrierAction::Receive,
            (BarrierPhase::Resent { round, their_barrier_id }, BarrierEvent::Sent) => {
                self.phase = BarrierPhase::AwaitingStep1 { round };
                BarrierAction::Send(message_vec(their_barrier_id, round, 1))
            },
            (BarrierPhase::Resent { round, their_barrier_id }, BarrierEvent::Received(_)) => {
                BarrierAction::Receive
            },
            (BarrierPhase::AwaitingStep0 { round }, BarrierEvent::Received(bytes)) => {
                match parse_message(bytes.as_slice()) {
                    Some((their_barrier_id, their_round, their_step)) => {
                        if their_step != 0 {
                            BarrierAction::Receive
                        } else if round == their_round {
                            self.phase = BarrierPhase::AwaitingStep1 { round };
                            BarrierAction::Send(message_vec(their_barrier_id, round, 1))
                        } else if round < their_round {
                            self.phase = BarrierPhase::Resent { round: their_round, their_barrier_id };
                            BarrierAction::Send(message_vec(self.barrier_id, their_round, 0))
                        } else {
                            self.start_round(round + 1)
                        }
                    },
                    None => BarrierAction::Receive,
                }
            },
            (BarrierPhase::AwaitingStep1 { round }, BarrierEvent::Received(bytes)) => {
                match parse_message(bytes.as_slice()) {
                    Some((our_barrier_id, their_round, their_step)) => {
                        if their_step > 1 {
                            BarrierAction::Receive
                        } else if their_step != 1 || our_barrier_id != self.barrier_id || round != their_round {
                            self.restart(round, their_round)
                        } else {
                            proof {
                                lemma_message_roundtrip(our_barrier_id, their_round, their_step, self.barrier_id, round, 1);
                            }
                            self.phase = BarrierPhase::Done;
                            BarrierAction::Finish
                        }
                    },
                    None => BarrierAction::Receive,
                }
            },
        }
    }
}

} // verus!
