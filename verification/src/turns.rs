//! Consumers that share one message queue and take turns at it.
//!
//! Each consumer is a state machine: it is told whose turn it is, it is handed
//! a message or told that the queue is closed, and it answers with what to do
//! next (read the queue, print a message and hand the turn on, stop). The
//! signalling itself (a broadcast of the turn, one channel per consumer, or a
//! shared counter) is left to the caller, which feeds the answers back in as
//! events.

use vstd::prelude::*;

verus! {

/// Where a consumer is in its round.
#[derive(Clone, Copy, Debug)]
pub enum Phase {
    /// Waiting to be told that it is its turn.
    AwaitTurn,
    /// Waiting for a message from the queue.
    AwaitMessage,
    /// Holding a message it took, until its turn comes.
    Holding(i32),
    /// Done: the queue was closed.
    Stopped,
}

/// What a consumer is told.
#[derive(Clone, Copy, Debug)]
pub enum Event {
    /// It is the turn of the consumer with this id.
    Turn(u64),
    /// The queue gave this message.
    Message(i32),
    /// The queue is closed and empty.
    Closed,
}

/// What a consumer asks its caller to do.
#[derive(Clone, Copy, Debug)]
pub enum Action {
    /// Nothing: the event was not for this consumer.
    Ignore,
    /// Read the next message from the queue.
    Receive,
    /// Wait until it is this consumer's turn.
    WaitTurn,
    /// Print `msg` as consumed by `consumer`, then give the turn to `next`.
    Print { consumer: u64, msg: i32, next: u64 },
    /// Report that `consumer` stops; give the turn to `next`, if there is one.
    Exit { consumer: u64, next: Option<u64> },
}

/// One of `count` consumers that take turns in the order of their ids.
#[derive(Clone, Copy, Debug)]
pub struct Consumer {
    pub id: u64,
    pub count: u64,
    /// Whether the turn is handed on when the queue turns out to be closed.
    pub pass_on_exit: bool,
    /// Whether a message is taken from the queue before the turn comes.
    pub receive_first: bool,
    pub phase: Phase,
}

/// The consumer after `id` in a ring of `count`.
pub open spec fn successor(id: u64, count: u64) -> u64 {
    if id + 1 < count {
        (id + 1) as u64
    } else {
        0
    }
}

/// Where a consumer starts.
pub open spec fn start_phase(receive_first: bool) -> Phase {
    if receive_first {
        Phase::AwaitMessage
    } else {
        Phase::AwaitTurn
    }
}

/// What a consumer asks for when it is told `e`.
pub open spec fn action_of(c: Consumer, e: Event) -> Action {
    match (c.phase, e) {
        (Phase::AwaitTurn, Event::Turn(t)) => if t == c.id {
            Action::Receive
        } else {
            Action::Ignore
        },
        (Phase::AwaitMessage, Event::Message(m)) => if c.receive_first {
            Action::WaitTurn
        } else {
            Action::Print { consumer: c.id, msg: m, next: successor(c.id, c.count) }
        },
        (Phase::AwaitMessage, Event::Closed) => Action::Exit {
            consumer: c.id,
            next: if c.pass_on_exit {
                Some(successor(c.id, c.count))
            } else {
                None
            },
        },
        (Phase::Holding(m), Event::Turn(t)) => if t == c.id {
            Action::Print { consumer: c.id, msg: m, next: successor(c.id, c.count) }
        } else {
            Action::Ignore
        },
        _ => Action::Ignore,
    }
}

/// Where a consumer is after it is told `e`.
pub open spec fn phase_after(c: Consumer, e: Event) -> Phase {
    match (c.phase, e) {
        (Phase::AwaitTurn, Event::Turn(t)) => if t == c.id {
            Phase::AwaitMessage
        } else {
            c.phase
        },
        (Phase::AwaitMessage, Event::Message(m)) => if c.receive_first {
            Phase::Holding(m)
        } else {
            Phase::AwaitTurn
        },
        (Phase::AwaitMessage, Event::Closed) => Phase::Stopped,
        (Phase::Holding(m), Event::Turn(t)) => if t == c.id {
            Phase::AwaitMessage
        } else {
            c.phase
        },
        _ => c.phase,
    }
}

/// The consumer after it is told `e`.
pub open spec fn next_state(c: Consumer, e: Event) -> Consumer {
    Consumer { phase: phase_after(c, e), ..c }
}

/// The consumer after `id` in a ring of `count`.
pub fn next_in_ring(id: u64, count: u64) -> (r: u64)
    requires
        id < count,
    ensures
        r == successor(id, count),
{
    if id + 1 < count {
        id + 1
    } else {
        0
    }
}

/// Whose turn a shared counter names, in a ring of `count`: it counts the
/// turns taken so far.
pub fn turn_of(counter: u64, count: u64) -> (r: u64)
    requires
        count > 0,
    ensures
        r == counter % count,
        r < count,
{
    counter % count
}

impl Consumer {
    /// Consumer `id` of `count`, at the start of its first round.
    pub fn new(id: u64, count: u64, pass_on_exit: bool, receive_first: bool) -> (c: Consumer)
        requires
            id < count,
        ensures
            c == (Consumer { id, count, pass_on_exit, receive_first, phase: start_phase(receive_first) }),
    {
        let phase = if receive_first {
            Phase::AwaitMessage
        } else {
            Phase::AwaitTurn
        };
        Consumer { id, count, pass_on_exit, receive_first, phase }
    }

    /// The consumer's ids are those of a ring.
    pub open spec fn valid(self) -> bool {
        self.id < self.count
    }

    /// Whether the consumer is done.
    pub fn is_stopped(&self) -> (b: bool)
        ensures
            b == (self.phase is Stopped),
    {
        match self.phase {
            Phase::Stopped => true,
            _ => false,
        }
    }

    /// Tells the consumer `e`; it moves on and says what to do.
    pub fn step(&mut self, e: Event) -> (a: Action)
        requires
            old(self).valid(),
        ensures
            *final(self) == next_state(*old(self), e),
            a == action_of(*old(self), e),
    {
        match (self.phase, e) {
            (Phase::AwaitTurn, Event::Turn(t)) => {
                if t == self.id {
                    self.phase = Phase::AwaitMessage;
                    Action::Receive
                } else {
                    Action::Ignore
                }
            },
            (Phase::AwaitMessage, Event::Message(m)) => {
                if self.receive_first {
                    self.phase = Phase::Holding(m);
                    Action::WaitTurn
                } else {
                    self.phase = Phase::AwaitTurn;
                    Action::Print { consumer: self.id, msg: m, next: next_in_ring(self.id, self.count) }
                }
            },
            (Phase::AwaitMessage, Event::Closed) => {
                self.phase = Phase::Stopped;
                let next = if self.pass_on_exit {
                    Some(next_in_ring(self.id, self.count))
                } else {
                    None
                };
                Action::Exit { consumer: self.id, next }
            },
            (Phase::Holding(m), Event::Turn(t)) => {
                if t == self.id {
                    self.phase = Phase::AwaitMessage;
                    Action::Print { consumer: self.id, msg: m, next: next_in_ring(self.id, self.count) }
                } else {
                    Action::Ignore
                }
            },
            _ => Action::Ignore,
        }
    }
}

/// `cs` is a ring of `n` consumers with ids `0..n`, each at the start of a
/// round and waiting for its turn before it reads the queue.
pub open spec fn fresh_ring(cs: Seq<Consumer>, n: u64) -> bool {
    &&& n > 0
    &&& cs.len() == n
    &&& forall|i: int|
        0 <= i < n ==> (#[trigger] cs[i]).id == i && cs[i].count == n && !cs[i].receive_first
            && cs[i].phase is AwaitTurn
}

/// Every consumer of `cs`, told `e`.
pub open spec fn tell_all(cs: Seq<Consumer>, e: Event) -> Seq<Consumer> {
    cs.map_values(|c: Consumer| next_state(c, e))
}

/// What each consumer of `cs` asks for when told `e`.
pub open spec fn answers(cs: Seq<Consumer>, e: Event) -> Seq<Action> {
    cs.map_values(|c: Consumer| action_of(c, e))
}

/// What a ring prints while the queue yields `msgs`, the turn being at `t`:
/// the turn is announced to every consumer, the consumer whose turn it is is
/// handed the next message, and the ring goes on with the turn where that
/// consumer hands it.
pub open spec fn serve(cs: Seq<Consumer>, t: u64, msgs: Seq<i32>) -> Seq<(u64, i32)>
    decreases msgs.len(),
{
    if msgs.len() == 0 || t >= cs.len() {
        Seq::empty()
    } else {
        let cs1 = tell_all(cs, Event::Turn(t));
        let e = Event::Message(msgs[0]);
        match action_of(cs1[t as int], e) {
            Action::Print { consumer, msg, next } => seq![(consumer, msg)] + serve(
                cs1.update(t as int, next_state(cs1[t as int], e)),
                next,
                msgs.drop_first(),
            ),
            _ => Seq::empty(),
        }
    }
}

/// Where the turn stands once a ring, the turn being at `t`, has served the
/// messages `msgs` as `serve` does.
pub open spec fn served_turn(cs: Seq<Consumer>, t: u64, msgs: Seq<i32>) -> u64
    decreases msgs.len(),
{
    if msgs.len() == 0 || t >= cs.len() {
        t
    } else {
        let cs1 = tell_all(cs, Event::Turn(t));
        let e = Event::Message(msgs[0]);
        match action_of(cs1[t as int], e) {
            Action::Print { consumer: _, msg: _, next } => served_turn(
                cs1.update(t as int, next_state(cs1[t as int], e)),
                next,
                msgs.drop_first(),
            ),
            _ => t,
        }
    }
}

/// The ring once it has served the messages `msgs` as `serve` does, the
/// turn being at `t`.
pub open spec fn served_ring(cs: Seq<Consumer>, t: u64, msgs: Seq<i32>) -> Seq<Consumer>
    decreases msgs.len(),
{
    if msgs.len() == 0 || t >= cs.len() {
        cs
    } else {
        let cs1 = tell_all(cs, Event::Turn(t));
        let e = Event::Message(msgs[0]);
        match action_of(cs1[t as int], e) {
            Action::Print { consumer: _, msg: _, next } => served_ring(
                cs1.update(t as int, next_state(cs1[t as int], e)),
                next,
                msgs.drop_first(),
            ),
            _ => cs1.update(t as int, next_state(cs1[t as int], e)),
        }
    }
}

/// Message `i` of `msgs`, printed by consumer `(t + i) % n`.
pub open spec fn round_robin(n: u64, t: u64, msgs: Seq<i32>) -> Seq<(u64, i32)> {
    Seq::new(msgs.len(), |i: int| (((t + i) % (n as int)) as u64, msgs[i]))
}

/// When the turn of consumer `t` is announced to a fresh ring, consumer `t`
/// alone asks to read the queue; every other consumer ignores it and stays as
/// it was.
pub proof fn law_one_takes_the_turn(cs: Seq<Consumer>, n: u64, t: u64)
    requires
        fresh_ring(cs, n),
        t < n,
    ensures
        answers(cs, Event::Turn(t))[t as int] is Receive,
        tell_all(cs, Event::Turn(t))[t as int] == (Consumer { phase: Phase::AwaitMessage, ..cs[t as int] }),
        forall|i: int|
            0 <= i < n && i != t ==> answers(cs, Event::Turn(t))[i] is Ignore
                && #[trigger] tell_all(cs, Event::Turn(t))[i] == cs[i],
{
    assert(cs[t as int].id == t);
    assert forall|i: int| 0 <= i < n && i != t implies answers(cs, Event::Turn(t))[i] is Ignore
        && #[trigger] tell_all(cs, Event::Turn(t))[i] == cs[i] by {
        assert(cs[i].id == i);
    }
}

/// Consumers that wait for their turn before reading the queue print the
/// messages in queue order, taking turns round the ring: message `i` goes to
/// consumer `(t + i) % n`, and afterwards the turn stands at
/// `(t + msgs.len()) % n`, with the ring as it was.
pub proof fn law_turns_go_round(cs: Seq<Consumer>, n: u64, t: u64, msgs: Seq<i32>)
    requires
        fresh_ring(cs, n),
        t < n,
    ensures
        serve(cs, t, msgs) == round_robin(n, t, msgs),
        served_turn(cs, t, msgs) as int == turn_after(t, msgs.len() as int, n),
        served_ring(cs, t, msgs) == cs,
    decreases msgs.len(),
{
    if msgs.len() == 0 {
        vstd::arithmetic::div_mod::lemma_small_mod(t as nat, n as nat);
    } else {
        let cs1 = tell_all(cs, Event::Turn(t));
        law_one_takes_the_turn(cs, n, t);
        let e = Event::Message(msgs[0]);
        let cs2 = cs1.update(t as int, next_state(cs1[t as int], e));
        assert(cs2 =~= cs) by {
            assert forall|i: int| 0 <= i < cs.len() implies cs2[i] == cs[i] by {
                if i != t {
                    assert(tell_all(cs, Event::Turn(t))[i] == cs[i]);
                }
            }
        }
        let nx = successor(t, n);
        let rest = msgs.drop_first();
        law_turns_go_round(cs, n, nx, rest);
        assert forall|i: int| #![trigger rest[i]] 0 <= i < rest.len() implies (nx + i) % (n as int) == (t + (i + 1)) % (n as int) by {
            if t + 1 >= n {
                vstd::arithmetic::div_mod::lemma_mod_add_multiples_vanish(i, n as int);
            }
        }
        assert(round_robin(n, nx, rest) =~= round_robin(n, t, msgs).drop_first());
        assert((t as int) % (n as int) == t) by {
            vstd::arithmetic::div_mod::lemma_small_mod(t as nat, n as nat);
        }
        assert(serve(cs, t, msgs) =~= round_robin(n, t, msgs));
        let l = rest.len() as int;
        assert((nx + l) % (n as int) == (t + (l + 1)) % (n as int)) by {
            if t + 1 >= n {
                vstd::arithmetic::div_mod::lemma_mod_add_multiples_vanish(l, n as int);
            }
        }
    }
}

/// With a shared counter of the turns taken so far, counting one more turn
/// hands the turn to the next consumer of the ring.
pub proof fn law_counting_passes_the_turn(counter: u64, n: u64)
    requires
        n > 0,
        counter < u64::MAX,
    ensures
        ((counter + 1) as int) % (n as int) == successor(((counter as int) % (n as int)) as u64, n),
{
    let r = (counter as int) % (n as int);
    vstd::arithmetic::div_mod::lemma_add_mod_noop(counter as int, 1, n as int);
    if n == 1 {
        assert(((counter + 1) as int) % 1 == 0);
        assert(r == 0);
    } else {
        vstd::arithmetic::div_mod::lemma_small_mod(1, n as nat);
        if r + 1 < n {
            vstd::arithmetic::div_mod::lemma_small_mod((r + 1) as nat, n as nat);
        } else {
            vstd::arithmetic::div_mod::lemma_mod_self_0(n as int);
        }
    }
}

/// The consumer whose turn comes `i` turns after consumer `t0`'s.
pub open spec fn turn_after(t0: u64, i: int, n: u64) -> int {
    (t0 + i) % (n as int)
}

/// The ring after the turn has gone round `k` times over a queue that is
/// closed, starting at `t`: the consumer whose turn it is reads the closed
/// queue, stops, and the ring goes on where that consumer hands the turn.
pub open spec fn close_round(cs: Seq<Consumer>, t: u64, k: nat) -> Seq<Consumer>
    decreases k,
{
    if k == 0 || t >= cs.len() {
        cs
    } else {
        let cs1 = tell_all(cs, Event::Turn(t));
        let cs2 = cs1.update(t as int, next_state(cs1[t as int], Event::Closed));
        match action_of(cs1[t as int], Event::Closed) {
            Action::Exit { consumer: _, next: Some(nx) } => close_round(cs2, nx, (k - 1) as nat),
            _ => cs2,
        }
    }
}

/// The consumers that report their exit while the turn goes round `k` times
/// over a closed queue, starting at `t`, in the order of their reports.
pub open spec fn closing_exits(cs: Seq<Consumer>, t: u64, k: nat) -> Seq<u64>
    decreases k,
{
    if k == 0 || t >= cs.len() {
        Seq::empty()
    } else {
        let cs1 = tell_all(cs, Event::Turn(t));
        let cs2 = cs1.update(t as int, next_state(cs1[t as int], Event::Closed));
        match action_of(cs1[t as int], Event::Closed) {
            Action::Exit { consumer, next: Some(nx) } => seq![consumer] + closing_exits(cs2, nx, (k - 1) as nat),
            Action::Exit { consumer, next: None } => seq![consumer],
            _ => Seq::empty(),
        }
    }
}

/// `t0 + i` taken round a ring of `n`, for `t0` and `i` below `n`.
proof fn lemma_wrap(t0: int, i: int, n: int)
    requires
        0 <= t0 < n,
        0 <= i < n,
    ensures
        (t0 + i) % n == if t0 + i < n {
            t0 + i
        } else {
            t0 + i - n
        },
{
    if t0 + i < n {
        vstd::arithmetic::div_mod::lemma_small_mod((t0 + i) as nat, n as nat);
    } else {
        vstd::arithmetic::div_mod::lemma_mod_add_multiples_vanish(t0 + i - n, n);
        vstd::arithmetic::div_mod::lemma_small_mod((t0 + i - n) as nat, n as nat);
    }
}

/// After `j` of the `n` closing turns that start at `t0`, the consumers
/// `t0 .. t0 + j` (round the ring) have stopped and the others still wait;
/// the remaining `k` turns stop the rest.
proof fn lemma_close_round(cs: Seq<Consumer>, n: u64, t0: u64, j: nat, k: nat, cur: Seq<Consumer>, t: u64)
    requires
        n > 0,
        t0 < n,
        cur.len() == n,
        j + k == n,
        t as int == (t0 + j) % (n as int),
        forall|c: int|
            0 <= c < n ==> (#[trigger] cur[c]).id == c && cur[c].count == n && cur[c].pass_on_exit
                && !cur[c].receive_first,
        forall|c: int|
            0 <= c < n ==> ((#[trigger] cur[c]).phase is Stopped <==> exists|i: int|
                0 <= i < j && #[trigger] turn_after(t0, i, n) == c),
        forall|c: int| 0 <= c < n && !(cur[c].phase is Stopped) ==> (#[trigger] cur[c]).phase is AwaitTurn,
    ensures
        forall|c: int| 0 <= c < n ==> (#[trigger] close_round(cur, t, k)[c]).phase is Stopped,
        closing_exits(cur, t, k) == Seq::new(k, |i: int| turn_after(t0, j + i, n) as u64),
    decreases k,
{
    if k == 0 {
        assert forall|c: int| 0 <= c < n implies (#[trigger] close_round(cur, t, k)[c]).phase is Stopped by {
            let i = if c >= t0 {
                c - t0
            } else {
                c + n - t0
            };
            lemma_wrap(t0 as int, i, n as int);
            assert(turn_after(t0, i, n) == c);
            assert(close_round(cur, t, k) == cur);
        }
        assert(closing_exits(cur, t, k) =~= Seq::new(k, |i: int| turn_after(t0, j + i, n) as u64));
    } else {
        lemma_wrap(t0 as int, j as int, n as int);
        assert(t < n);
        assert(!(cur[t as int].phase is Stopped)) by {
            if cur[t as int].phase is Stopped {
                let i = choose|i: int| 0 <= i < j && turn_after(t0, i, n) == t;
                lemma_wrap(t0 as int, i, n as int);
            }
        }
        let cs1 = tell_all(cur, Event::Turn(t));
        let cs2 = cs1.update(t as int, next_state(cs1[t as int], Event::Closed));
        assert(cs1[t as int].phase is AwaitMessage);
        let nx = successor(t, n);
        assert(nx as int == (t0 + (j + 1)) % (n as int)) by {
            if j + 1 < n {
                lemma_wrap(t0 as int, (j + 1) as int, n as int);
            } else {
                assert(t0 + j + 1 == t0 + n);
                vstd::arithmetic::div_mod::lemma_mod_add_multiples_vanish(t0 as int, n as int);
                vstd::arithmetic::div_mod::lemma_small_mod(t0 as nat, n as nat);
            }
        }
        assert forall|c: int| 0 <= c < n implies ((#[trigger] cs2[c]).phase is Stopped <==> exists|i: int|
            0 <= i < j + 1 && #[trigger] turn_after(t0, i, n) == c) by {
            if c == t {
                assert(turn_after(t0, j as int, n) == c);
                assert(cs2[c].phase is Stopped);
            } else {
                assert(cs2[c] == next_state(cur[c], Event::Turn(t)));
                if cs2[c].phase is Stopped {
                    let i = choose|i: int| 0 <= i < j && turn_after(t0, i, n) == c;
                }
                if exists|i: int| 0 <= i < j + 1 && #[trigger] turn_after(t0, i, n) == c {
                    let i = choose|i: int| 0 <= i < j + 1 && turn_after(t0, i, n) == c;
                    assert(i != j);
                }
            }
        }
        assert forall|c: int| 0 <= c < n && !(cs2[c].phase is Stopped) implies (#[trigger] cs2[c]).phase is AwaitTurn by {
            assert(c != t);
        }
        lemma_close_round(cs, n, t0, j + 1, (k - 1) as nat, cs2, nx);
        assert(turn_after(t0, j as int, n) == t);
        let rest = Seq::new((k - 1) as nat, |i: int| turn_after(t0, (j + 1) + i, n) as u64);
        assert forall|i: int| 0 <= i < k implies #[trigger] (seq![t] + rest)[i] == turn_after(t0, j + i, n) as u64 by {
            if i > 0 {
                assert((seq![t] + rest)[i] == rest[i - 1]);
                assert((j + 1) + (i - 1) == j + i);
            }
        }
        assert(closing_exits(cur, t, k) =~= Seq::new(k, |i: int| turn_after(t0, j + i, n) as u64));
    }
}

/// The consumers that report their exit over a closed queue when a consumer
/// that stops without handing the turn on still wakes the next one (its turn
/// signal closes with it), the turn going round `k` times from `t`.
pub open spec fn closing_exits_woken(cs: Seq<Consumer>, t: u64, k: nat) -> Seq<u64>
    decreases k,
{
    if k == 0 || t >= cs.len() {
        Seq::empty()
    } else {
        let cs1 = tell_all(cs, Event::Turn(t));
        let cs2 = cs1.update(t as int, next_state(cs1[t as int], Event::Closed));
        match action_of(cs1[t as int], Event::Closed) {
            Action::Exit { consumer, next: Some(nx) } => seq![consumer] + closing_exits_woken(
                cs2,
                nx,
                (k - 1) as nat,
            ),
            Action::Exit { consumer, next: None } => seq![consumer] + closing_exits_woken(
                cs2,
                successor(t, cs1[t as int].count),
                (k - 1) as nat,
            ),
            _ => Seq::empty(),
        }
    }
}

/// As `lemma_close_round`, for a ring whose consumers may or may not hand
/// the turn on at exit, when a stopping consumer wakes the next one.
proof fn lemma_close_woken(cs: Seq<Consumer>, n: u64, t0: u64, j: nat, k: nat, cur: Seq<Consumer>, t: u64)
    requires
        n > 0,
        t0 < n,
        cur.len() == n,
        j + k == n,
        t as int == (t0 + j) % (n as int),
        forall|c: int|
            0 <= c < n ==> (#[trigger] cur[c]).id == c && cur[c].count == n && !cur[c].receive_first,
        forall|c: int|
            0 <= c < n ==> ((#[trigger] cur[c]).phase is Stopped <==> exists|i: int|
                0 <= i < j && #[trigger] turn_after(t0, i, n) == c),
        forall|c: int| 0 <= c < n && !(cur[c].phase is Stopped) ==> (#[trigger] cur[c]).phase is AwaitTurn,
    ensures
        closing_exits_woken(cur, t, k) == Seq::new(k, |i: int| turn_after(t0, j + i, n) as u64),
    decreases k,
{
    if k == 0 {
        assert(closing_exits_woken(cur, t, k) =~= Seq::new(k, |i: int| turn_after(t0, j + i, n) as u64));
    } else {
        lemma_wrap(t0 as int, j as int, n as int);
        assert(t < n);
        assert(!(cur[t as int].phase is Stopped)) by {
            if cur[t as int].phase is Stopped {
                let i = choose|i: int| 0 <= i < j && turn_after(t0, i, n) == t;
                lemma_wrap(t0 as int, i, n as int);
            }
        }
        let cs1 = tell_all(cur, Event::Turn(t));
        let cs2 = cs1.update(t as int, next_state(cs1[t as int], Event::Closed));
        assert(cs1[t as int].phase is AwaitMessage);
        let nx = successor(t, n);
        assert(nx as int == (t0 + (j + 1)) % (n as int)) by {
            if j + 1 < n {
                lemma_wrap(t0 as int, (j + 1) as int, n as int);
            } else {
                assert(t0 + j + 1 == t0 + n);
                vstd::arithmetic::div_mod::lemma_mod_add_multiples_vanish(t0 as int, n as int);
                vstd::arithmetic::div_mod::lemma_small_mod(t0 as nat, n as nat);
            }
        }
        assert forall|c: int| 0 <= c < n implies ((#[trigger] cs2[c]).phase is Stopped <==> exists|i: int|
            0 <= i < j + 1 && #[trigger] turn_after(t0, i, n) == c) by {
            if c == t {
                assert(turn_after(t0, j as int, n) == c);
                assert(cs2[c].phase is Stopped);
            } else {
                assert(cs2[c] == next_state(cur[c], Event::Turn(t)));
                if cs2[c].phase is Stopped {
                    let i = choose|i: int| 0 <= i < j && turn_after(t0, i, n) == c;
                }
                if exists|i: int| 0 <= i < j + 1 && #[trigger] turn_after(t0, i, n) == c {
                    let i = choose|i: int| 0 <= i < j + 1 && turn_after(t0, i, n) == c;
                    assert(i != j);
                }
            }
        }
        assert forall|c: int| 0 <= c < n && !(cs2[c].phase is Stopped) implies (#[trigger] cs2[c]).phase is AwaitTurn by {
            assert(c != t);
        }
        lemma_close_woken(cs, n, t0, j + 1, (k - 1) as nat, cs2, nx);
        assert(turn_after(t0, j as int, n) == t);
        let rest = Seq::new((k - 1) as nat, |i: int| turn_after(t0, (j + 1) + i, n) as u64);
        assert forall|i: int| 0 <= i < k implies #[trigger] (seq![t] + rest)[i] == turn_after(t0, j + i, n) as u64 by {
            if i > 0 {
                assert((seq![t] + rest)[i] == rest[i - 1]);
                assert((j + 1) + (i - 1) == j + i);
            }
        }
        assert(closing_exits_woken(cur, t, k) =~= Seq::new(k, |i: int| turn_after(t0, j + i, n) as u64));
    }
}

/// When every consumer hands the turn on as it finds the queue closed, `n`
/// turns after the queue closed every consumer of the ring has stopped, and
/// they reported their exits round the ring from the consumer whose turn it
/// was.
pub proof fn law_closing_stops_every_consumer(cs: Seq<Consumer>, n: u64, t: u64)
    requires
        fresh_ring(cs, n),
        forall|c: int| 0 <= c < n ==> (#[trigger] cs[c]).pass_on_exit,
        t < n,
    ensures
        forall|c: int| 0 <= c < n ==> (#[trigger] close_round(cs, t, n as nat)[c]).phase is Stopped,
        closing_exits(cs, t, n as nat) == Seq::new(n as nat, |i: int| turn_after(t, i, n) as u64),
{
    vstd::arithmetic::div_mod::lemma_small_mod(t as nat, n as nat);
    assert(t as int == (t + 0) % (n as int));
    lemma_close_round(cs, n, t, 0, n as nat, cs, t);
    assert(Seq::new(n as nat, |i: int| turn_after(t, 0 + i, n) as u64) =~= Seq::new(
        n as nat,
        |i: int| turn_after(t, i, n) as u64,
    ));
}

/// A ring whose consumers hand the turn on at exit, started at consumer `t`
/// over a queue that yields `msgs` and then closes, prints message `i` at
/// consumer `(t + i) % n`; then, from the consumer after the last printer,
/// each consumer in ring order reports its exit, and all have stopped.
pub proof fn law_queue_served_then_closed(cs: Seq<Consumer>, n: u64, t: u64, msgs: Seq<i32>)
    requires
        fresh_ring(cs, n),
        forall|c: int| 0 <= c < n ==> (#[trigger] cs[c]).pass_on_exit,
        t < n,
    ensures
        serve(cs, t, msgs) == round_robin(n, t, msgs),
        ({
            let t2 = served_turn(cs, t, msgs);
            let cs2 = served_ring(cs, t, msgs);
            &&& t2 as int == turn_after(t, msgs.len() as int, n)
            &&& closing_exits(cs2, t2, n as nat) == Seq::new(n as nat, |i: int| turn_after(t2, i, n) as u64)
            &&& forall|c: int| 0 <= c < n ==> (#[trigger] close_round(cs2, t2, n as nat)[c]).phase is Stopped
        }),
{
    law_turns_go_round(cs, n, t, msgs);
    let t2 = served_turn(cs, t, msgs);
    assert(t2 < n) by {
        vstd::arithmetic::div_mod::lemma_mod_bound((t + msgs.len()) as int, n as int);
    }
    law_closing_stops_every_consumer(cs, n, t2);
}

/// The two channel-driven rings print the same lines: a ring whose
/// consumers hand the turn on at exit (a broadcast turn) and a ring whose
/// consumers do not, but whose stopping consumer wakes the next one (one
/// channel per consumer, closed when its sender stops), started at the same
/// consumer over the same queue, print the same messages at the same
/// consumers and then report their exits in the same order.
pub proof fn law_both_rings_print_alike(passing: Seq<Consumer>, waking: Seq<Consumer>, n: u64, t: u64, msgs: Seq<i32>)
    requires
        fresh_ring(passing, n),
        fresh_ring(waking, n),
        forall|c: int| 0 <= c < n ==> (#[trigger] passing[c]).pass_on_exit,
        t < n,
    ensures
        serve(passing, t, msgs) == serve(waking, t, msgs),
        served_turn(passing, t, msgs) == served_turn(waking, t, msgs),
        closing_exits(served_ring(passing, t, msgs), served_turn(passing, t, msgs), n as nat)
            == closing_exits_woken(served_ring(waking, t, msgs), served_turn(waking, t, msgs), n as nat),
{
    law_queue_served_then_closed(passing, n, t, msgs);
    law_turns_go_round(waking, n, t, msgs);
    let t2 = served_turn(waking, t, msgs);
    assert(t2 < n) by {
        vstd::arithmetic::div_mod::lemma_mod_bound((t + msgs.len()) as int, n as int);
    }
    vstd::arithmetic::div_mod::lemma_small_mod(t2 as nat, n as nat);
    assert(t2 as int == (t2 + 0) % (n as int));
    lemma_close_woken(waking, n, t2, 0, n as nat, waking, t2);
    assert(Seq::new(n as nat, |i: int| turn_after(t2, 0 + i, n) as u64) =~= Seq::new(
        n as nat,
        |i: int| turn_after(t2, i, n) as u64,
    ));
}

/// The consumer after `id` in a ring of `count` is `(id + 1) % count`.
proof fn lemma_successor_mod(id: u64, count: u64)
    requires
        id < count,
    ensures
        successor(id, count) as int == (id + 1) % (count as int),
{
    if id + 1 < count {
        vstd::arithmetic::div_mod::lemma_small_mod((id + 1) as nat, count as nat);
    } else {
        vstd::arithmetic::div_mod::lemma_mod_self_0(count as int);
    }
}

/// A consumer waiting for a message that learns the queue is closed reports
/// its exit and stops, whether or not it takes its message before its turn;
/// it hands the turn to consumer `(id + 1) % count` exactly when it was made
/// to hand the turn on at exit.
pub proof fn law_closed_queue_stops_a_waiting_consumer(c: Consumer)
    requires
        c.valid(),
        c.phase is AwaitMessage,
    ensures
        next_state(c, Event::Closed).phase is Stopped,
        next_state(c, Event::Closed).id == c.id,
        next_state(c, Event::Closed).count == c.count,
        next_state(c, Event::Closed).pass_on_exit == c.pass_on_exit,
        next_state(c, Event::Closed).receive_first == c.receive_first,
        action_of(c, Event::Closed) is Exit,
        action_of(c, Event::Closed)->Exit_consumer == c.id,
        c.pass_on_exit ==> action_of(c, Event::Closed)->Exit_next is Some
            && action_of(c, Event::Closed)->Exit_next->0 as int == (c.id + 1) % (c.count as int),
        !c.pass_on_exit ==> action_of(c, Event::Closed)->Exit_next is None,
{
    lemma_successor_mod(c.id, c.count);
}

/// A consumer that prints hands the turn to the next consumer in id order,
/// `(id + 1) % count`: whether it holds a message it took before its turn
/// and is now given the turn, or it had its turn and is now given a message;
/// it prints that message, under its own id, and goes on to wait for the
/// queue or for its next turn.
pub proof fn law_printing_hands_the_turn_on(c: Consumer, m: i32)
    requires
        c.valid(),
    ensures
        c.phase == Phase::Holding(m) ==> {
            &&& action_of(c, Event::Turn(c.id)) is Print
            &&& action_of(c, Event::Turn(c.id))->Print_consumer == c.id
            &&& action_of(c, Event::Turn(c.id))->Print_msg == m
            &&& action_of(c, Event::Turn(c.id))->Print_next as int == (c.id + 1) % (c.count as int)
            &&& next_state(c, Event::Turn(c.id)).phase is AwaitMessage
        },
        c.phase is AwaitMessage && !c.receive_first ==> {
            &&& action_of(c, Event::Message(m)) is Print
            &&& action_of(c, Event::Message(m))->Print_consumer == c.id
            &&& action_of(c, Event::Message(m))->Print_msg == m
            &&& action_of(c, Event::Message(m))->Print_next as int == (c.id + 1) % (c.count as int)
            &&& next_state(c, Event::Message(m)).phase is AwaitTurn
        },
        c.phase is AwaitMessage && c.receive_first ==> {
            &&& action_of(c, Event::Message(m)) is WaitTurn
            &&& next_state(c, Event::Message(m)).phase == Phase::Holding(m)
        },
{
    lemma_successor_mod(c.id, c.count);
}

/// `cs` is a ring of `n` consumers with ids `0..n` that take a message before
/// their turn, each now holding the message `held[i]`.
pub open spec fn holding_ring(cs: Seq<Consumer>, n: u64, held: Seq<i32>) -> bool {
    &&& n > 0
    &&& cs.len() == n
    &&& held.len() == n
    &&& forall|i: int|
        0 <= i < n ==> (#[trigger] cs[i]).id == i && cs[i].count == n && cs[i].receive_first
            && cs[i].phase == Phase::Holding(held[i])
}

/// In a ring of consumers that each hold a message, announcing the turn of
/// consumer `t` makes consumer `t` alone print, its own message, and hand the
/// turn to consumer `(t + 1) % n`; every other consumer ignores the turn and
/// stays as it was. So the turn goes round the ring in id order, and the
/// consumers print in the order `t, t + 1, ...` taken round `n`.
pub proof fn law_holding_ring_goes_round(cs: Seq<Consumer>, n: u64, held: Seq<i32>, t: u64)
    requires
        holding_ring(cs, n, held),
        t < n,
    ensures
        answers(cs, Event::Turn(t))[t as int] is Print,
        answers(cs, Event::Turn(t))[t as int]->Print_consumer == t,
        answers(cs, Event::Turn(t))[t as int]->Print_msg == held[t as int],
        answers(cs, Event::Turn(t))[t as int]->Print_next as int == (t + 1) % (n as int),
        tell_all(cs, Event::Turn(t))[t as int].phase is AwaitMessage,
        forall|i: int|
            0 <= i < n && i != t ==> answers(cs, Event::Turn(t))[i] is Ignore
                && #[trigger] tell_all(cs, Event::Turn(t))[i] == cs[i],
{
    assert(cs[t as int].id == t);
    law_printing_hands_the_turn_on(cs[t as int], held[t as int]);
    assert forall|i: int| 0 <= i < n && i != t implies answers(cs, Event::Turn(t))[i] is Ignore
        && #[trigger] tell_all(cs, Event::Turn(t))[i] == cs[i] by {
        assert(cs[i].id == i);
    }
}

/// In a ring of consumers that all wait for the queue, a closed queue stops
/// every one of them, receive-first or not; each reports its own exit and,
/// when made to hand the turn on at exit, names the next consumer in id
/// order.
pub proof fn law_closed_queue_stops_a_waiting_ring(cs: Seq<Consumer>, n: u64)
    requires
        n > 0,
        cs.len() == n,
        forall|i: int| 0 <= i < n ==> (#[trigger] cs[i]).id == i && cs[i].count == n && cs[i].phase is AwaitMessage,
    ensures
        forall|i: int| 0 <= i < n ==> (#[trigger] tell_all(cs, Event::Closed)[i]).phase is Stopped,
        forall|i: int|
            0 <= i < n ==> {
                &&& (#[trigger] answers(cs, Event::Closed)[i]) is Exit
                &&& answers(cs, Event::Closed)[i]->Exit_consumer == i
                &&& cs[i].pass_on_exit ==> answers(cs, Event::Closed)[i]->Exit_next is Some
                    && answers(cs, Event::Closed)[i]->Exit_next->0 as int == (i + 1) % (n as int)
                &&& !cs[i].pass_on_exit ==> answers(cs, Event::Closed)[i]->Exit_next is None
            },
{
    assert forall|i: int| 0 <= i < n implies (#[trigger] tell_all(cs, Event::Closed)[i]).phase is Stopped by {
        law_closed_queue_stops_a_waiting_consumer(cs[i]);
    }
    assert forall|i: int|
        0 <= i < n implies {
            &&& (#[trigger] answers(cs, Event::Closed)[i]) is Exit
            &&& answers(cs, Event::Closed)[i]->Exit_consumer == i
            &&& cs[i].pass_on_exit ==> answers(cs, Event::Closed)[i]->Exit_next is Some
                && answers(cs, Event::Closed)[i]->Exit_next->0 as int == (i + 1) % (n as int)
            &&& !cs[i].pass_on_exit ==> answers(cs, Event::Closed)[i]->Exit_next is None
        } by {
        law_closed_queue_stops_a_waiting_consumer(cs[i]);
    }
}

} // verus!
