use multi_index_store::turns::next_in_ring;
use multi_index_store::turns::turn_of;
use multi_index_store::turns::Action;
use multi_index_store::turns::Consumer;
use multi_index_store::turns::Event;
use multi_index_store::turns::Phase;

/// Runs a ring of consumers that wait for a broadcast turn, feeding them the
/// queue `msgs`, and collects what they print and how they stop.
fn broadcast_ring(n: u64, msgs: &[i32]) -> (Vec<(u64, i32)>, Vec<u64>) {
    let mut ring: Vec<Consumer> = (0..n).map(|i| Consumer::new(i, n, true, false)).collect();
    let mut printed = Vec::new();
    let mut stopped = Vec::new();
    let mut turn = Some(0u64);
    let mut queue = msgs.iter();
    while let Some(t) = turn {
        turn = None;
        for c in ring.iter_mut() {
            match c.step(Event::Turn(t)) {
                Action::Receive => {
                    let ev = match queue.next() {
                        Some(m) => Event::Message(*m),
                        None => Event::Closed,
                    };
                    match c.step(ev) {
                        Action::Print { consumer, msg, next } => {
                            printed.push((consumer, msg));
                            turn = Some(next);
                        }
                        Action::Exit { consumer, next } => {
                            stopped.push(consumer);
                            turn = next;
                        }
                        other => panic!("unexpected {:?}", other),
                    }
                }
                Action::Ignore => {}
                other => panic!("unexpected {:?}", other),
            }
        }
        if ring.iter().all(|c| c.is_stopped()) {
            break;
        }
    }
    (printed, stopped)
}

#[test]
fn two_consumers_alternate_over_the_queue() {
    let msgs: Vec<i32> = (0..20).collect();
    let (printed, stopped) = broadcast_ring(2, &msgs);
    let expected: Vec<(u64, i32)> = (0..20).map(|i| ((i % 2) as u64, i)).collect();
    assert_eq!(printed, expected);
    assert_eq!(stopped, vec![0, 1]);
}

#[test]
fn three_consumers_go_round() {
    let msgs = [7, 8, 9, 10, 11];
    let (printed, stopped) = broadcast_ring(3, &msgs);
    assert_eq!(printed, vec![(0, 7), (1, 8), (2, 9), (0, 10), (1, 11)]);
    assert_eq!(stopped, vec![2, 0, 1]);
}

#[test]
fn only_the_named_consumer_takes_the_turn() {
    let mut a = Consumer::new(0, 2, true, false);
    let mut b = Consumer::new(1, 2, true, false);
    assert!(matches!(a.step(Event::Turn(1)), Action::Ignore));
    assert!(matches!(a.phase, Phase::AwaitTurn));
    assert!(matches!(b.step(Event::Turn(1)), Action::Receive));
    assert!(matches!(b.phase, Phase::AwaitMessage));
    // A turn announced while a consumer waits for its message changes nothing.
    assert!(matches!(b.step(Event::Turn(0)), Action::Ignore));
    match b.step(Event::Message(42)) {
        Action::Print { consumer, msg, next } => {
            assert_eq!((consumer, msg, next), (1, 42, 0));
        }
        other => panic!("unexpected {:?}", other),
    }
}

#[test]
fn exit_hands_the_turn_on_or_not() {
    let mut passing = Consumer::new(1, 3, true, false);
    passing.step(Event::Turn(1));
    match passing.step(Event::Closed) {
        Action::Exit { consumer, next } => assert_eq!((consumer, next), (1, Some(2))),
        other => panic!("unexpected {:?}", other),
    }
    assert!(passing.is_stopped());
    assert!(matches!(passing.step(Event::Turn(1)), Action::Ignore));

    let mut keeping = Consumer::new(0, 2, false, false);
    keeping.step(Event::Turn(0));
    match keeping.step(Event::Closed) {
        Action::Exit { consumer, next } => assert_eq!((consumer, next), (0, None)),
        other => panic!("unexpected {:?}", other),
    }
}

#[test]
fn receiving_before_the_turn_can_swap_messages() {
    // Both consumers take a message first; consumer 1 happens to get the first
    // one, and the turn still starts at consumer 0.
    let mut c0 = Consumer::new(0, 2, true, true);
    let mut c1 = Consumer::new(1, 2, true, true);
    assert!(matches!(c1.step(Event::Message(0)), Action::WaitTurn));
    assert!(matches!(c0.step(Event::Message(1)), Action::WaitTurn));
    assert!(matches!(c1.step(Event::Turn(0)), Action::Ignore));
    let first = c0.step(Event::Turn(0));
    let second = c1.step(Event::Turn(1));
    match (first, second) {
        (Action::Print { consumer: a, msg: ma, next: na }, Action::Print { consumer: b, msg: mb, next: nb }) => {
            assert_eq!((a, ma, na), (0, 1, 1));
            assert_eq!((b, mb, nb), (1, 0, 0));
        }
        other => panic!("unexpected {:?}", other),
    }
    assert!(matches!(c0.phase, Phase::AwaitMessage));
}

#[test]
fn a_counter_names_the_consumers_in_turn() {
    let who: Vec<u64> = (0..6).map(|c| turn_of(c, 2)).collect();
    assert_eq!(who, vec![0, 1, 0, 1, 0, 1]);
    for c in 0..10u64 {
        assert_eq!(turn_of(c + 1, 3), next_in_ring(turn_of(c, 3), 3));
    }
    assert_eq!(next_in_ring(2, 3), 0);
    assert_eq!(next_in_ring(0, 1), 0);
}

#[test]
fn a_ring_woken_by_closed_signals_exits_like_a_passing_ring() {
    // Consumers that do not hand the turn on at exit, but whose stopping
    // wakes the next consumer, as a closed channel does.
    let n = 2u64;
    let mut ring: Vec<Consumer> = (0..n).map(|i| Consumer::new(i, n, false, false)).collect();
    let msgs: Vec<i32> = (0..20).collect();
    let mut queue = msgs.iter();
    let mut printed = Vec::new();
    let mut exits = Vec::new();
    let mut turn = 0u64;
    while !ring.iter().all(|c| c.is_stopped()) {
        let c = &mut ring[turn as usize];
        assert!(matches!(c.step(Event::Turn(turn)), Action::Receive));
        let ev = match queue.next() {
            Some(m) => Event::Message(*m),
            None => Event::Closed,
        };
        match c.step(ev) {
            Action::Print { consumer, msg, next } => {
                printed.push((consumer, msg));
                turn = next;
            }
            Action::Exit { consumer, next } => {
                assert_eq!(next, None);
                exits.push(consumer);
                turn = next_in_ring(consumer, n);
            }
            other => panic!("unexpected {:?}", other),
        }
    }
    let expected: Vec<(u64, i32)> = (0..20).map(|i| ((i % 2) as u64, i)).collect();
    assert_eq!(printed, expected);
    assert_eq!(exits, vec![0, 1]);
}
