use ouisync_network::barrier::{
    construct_message, parse_message, BarrierAction, BarrierError, BarrierEvent, BarrierMachine, MSG_SIZE,
};
use std::collections::VecDeque;

#[test]
fn message_round_trip() {
    let msg = construct_message(0x0102030405060708, 0x0a0b0c0d, 1);
    assert_eq!(msg.len(), MSG_SIZE);
    assert_eq!(&msg[..13], b"barrier-start");
    assert_eq!(&msg[13..21], &[8, 7, 6, 5, 4, 3, 2, 1]);
    assert_eq!(&msg[21..25], &[0x0d, 0x0c, 0x0b, 0x0a]);
    assert_eq!(msg[25], 1);
    assert_eq!(&msg[26..], b"barrier-end");
    assert_eq!(parse_message(&msg), Some((0x0102030405060708, 0x0a0b0c0d, 1)));
}

#[test]
fn parse_rejects_other_messages() {
    assert_eq!(parse_message(&[]), None);
    let mut msg = construct_message(1, 2, 0);
    msg[0] = b'B';
    assert_eq!(parse_message(&msg), None);
    let msg = construct_message(1, 2, 0);
    assert_eq!(parse_message(&msg[..36]), None);
    let mut msg = construct_message(1, 2, 0).to_vec();
    msg.push(0);
    assert_eq!(parse_message(&msg), None);
}

struct Side {
    machine: BarrierMachine,
    inbox: VecDeque<Vec<u8>>,
    next: BarrierAction,
    done: Option<Result<(), BarrierError>>,
}

/// Runs two barriers against each other until both end; returns their results.
fn run_pair(a_id: u64, b_id: u64) -> (Result<(), BarrierError>, Result<(), BarrierError>) {
    let mut sides = [
        Side { machine: BarrierMachine::new(a_id), inbox: VecDeque::new(), next: BarrierAction::Receive, done: None },
        Side { machine: BarrierMachine::new(b_id), inbox: VecDeque::new(), next: BarrierAction::Receive, done: None },
    ];
    for side in sides.iter_mut() {
        side.next = side.machine.step(BarrierEvent::Sent);
    }
    for _ in 0..10_000 {
        if sides.iter().all(|s| s.done.is_some()) {
            break;
        }
        for i in 0..2 {
            if sides[i].done.is_some() {
                continue;
            }
            match sides[i].next.clone() {
                BarrierAction::Send(bytes) => {
                    if !bytes.is_empty() {
                        sides[1 - i].inbox.push_back(bytes);
                    }
                    sides[i].next = sides[i].machine.step(BarrierEvent::Sent);
                }
                BarrierAction::Receive => {
                    if let Some(msg) = sides[i].inbox.pop_front() {
                        sides[i].next = sides[i].machine.step(BarrierEvent::Received(msg));
                    }
                }
                BarrierAction::Finish => sides[i].done = Some(Ok(())),
                BarrierAction::Fail(e) => sides[i].done = Some(Err(e)),
            }
        }
    }
    (sides[0].done.unwrap(), sides[1].done.unwrap())
}

#[test]
fn two_barriers_complete() {
    assert_eq!(run_pair(0x1111, 0x2222), (Ok(()), Ok(())));
}

#[test]
fn barrier_times_out() {
    let mut machine = BarrierMachine::new(5);
    assert_eq!(machine.step(BarrierEvent::Sent), BarrierAction::Send(vec![]));
    match machine.step(BarrierEvent::Sent) {
        BarrierAction::Send(bytes) => assert_eq!(parse_message(&bytes), Some((5, 0, 0))),
        other => panic!("unexpected {:?}", other),
    }
    assert_eq!(machine.step(BarrierEvent::Sent), BarrierAction::Receive);
    assert_eq!(machine.step(BarrierEvent::TimedOut), BarrierAction::Fail(BarrierError::Timeout));
}

#[test]
fn barrier_channel_closed() {
    let mut machine = BarrierMachine::new(5);
    machine.step(BarrierEvent::Sent);
    machine.step(BarrierEvent::Sent);
    assert_eq!(machine.step(BarrierEvent::Closed), BarrierAction::Fail(BarrierError::ChannelClosed));
}

#[test]
fn barrier_skips_foreign_messages_and_echoes_id() {
    let mut machine = BarrierMachine::new(7);
    machine.step(BarrierEvent::Sent);
    machine.step(BarrierEvent::Sent);
    machine.step(BarrierEvent::Sent);
    assert_eq!(machine.step(BarrierEvent::Received(b"hello".to_vec())), BarrierAction::Receive);
    match machine.step(BarrierEvent::Received(construct_message(9, 0, 0).to_vec())) {
        BarrierAction::Send(bytes) => assert_eq!(parse_message(&bytes), Some((9, 0, 1))),
        other => panic!("unexpected {:?}", other),
    }
    machine.step(BarrierEvent::Sent);
    // Our own id echoed in step 1 of our round completes the barrier.
    assert_eq!(machine.step(BarrierEvent::Received(construct_message(7, 0, 1).to_vec())), BarrierAction::Finish);
}

#[test]
fn barrier_fails_after_last_round() {
    let mut machine = BarrierMachine::new(7);
    machine.step(BarrierEvent::Sent);
    machine.step(BarrierEvent::Sent);
    machine.step(BarrierEvent::Sent);
    // The peer is ahead in round 64: we follow it, then it echoes a foreign id.
    let action = machine.step(BarrierEvent::Received(construct_message(9, 64, 0).to_vec()));
    match action {
        BarrierAction::Send(bytes) => assert_eq!(parse_message(&bytes), Some((7, 64, 0))),
        other => panic!("unexpected {:?}", other),
    }
    machine.step(BarrierEvent::Sent);
    machine.step(BarrierEvent::Sent);
    assert_eq!(
        machine.step(BarrierEvent::Received(construct_message(8, 64, 1).to_vec())),
        BarrierAction::Fail(BarrierError::Failure)
    );
}

#[test]
fn barrier_moves_past_earlier_rounds() {
    let mut machine = BarrierMachine::new(7);
    machine.step(BarrierEvent::Sent);
    machine.step(BarrierEvent::Sent);
    machine.step(BarrierEvent::Sent);
    // The peer is in round 3: we send our step 0 there, then our step 1 echoing its id.
    match machine.step(BarrierEvent::Received(construct_message(9, 3, 0).to_vec())) {
        BarrierAction::Send(bytes) => assert_eq!(parse_message(&bytes), Some((7, 3, 0))),
        other => panic!("unexpected {:?}", other),
    }
    match machine.step(BarrierEvent::Sent) {
        BarrierAction::Send(bytes) => assert_eq!(parse_message(&bytes), Some((9, 3, 1))),
        other => panic!("unexpected {:?}", other),
    }
    assert_eq!(machine.step(BarrierEvent::Sent), BarrierAction::Receive);
    // A step-0 message while waiting for step 1 starts the round after both rounds.
    match machine.step(BarrierEvent::Received(construct_message(9, 1, 0).to_vec())) {
        BarrierAction::Send(bytes) => assert_eq!(parse_message(&bytes), Some((7, 4, 0))),
        other => panic!("unexpected {:?}", other),
    }
    assert_eq!(machine.step(BarrierEvent::Sent), BarrierAction::Receive);
    // A step-0 message of an earlier round starts the round after ours.
    match machine.step(BarrierEvent::Received(construct_message(9, 2, 0).to_vec())) {
        BarrierAction::Send(bytes) => assert_eq!(parse_message(&bytes), Some((7, 5, 0))),
        other => panic!("unexpected {:?}", other),
    }
}
