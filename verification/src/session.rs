//! The life cycle of one connection, as a state machine: what a session
//! does on each event, and the state it is in afterwards.

use vstd::prelude::*;
use crate::chance::fresh_id;
use crate::frame::{json_number, parse_move, target_of};
use crate::geometry::Point;
use crate::units::ClientId;

verus! {

/// Milliseconds between two liveness probes.
pub const HEARTBEAT_INTERVAL_MS: u64 = 5_000;

/// Milliseconds of silence after which a client counts as dead.
pub const CLIENT_TIMEOUT_MS: u64 = 10_000;

/// The frame that tells a client it was eaten.
pub const GAME_OVER_FRAME: &'static str = "{\"type\":\"game_over\"}";

/// Where a session is in its life.
#[derive(Clone, Copy, Debug, PartialEq, Eq, Structural)]
pub enum Phase {
    /// The connection is not established yet.
    Connecting,
    /// The client plays.
    Active,
    /// The player was eaten; the terminal notice is on its way.
    Eliminated,
    /// The client closed the connection or fell silent.
    Disconnected,
    /// The connection is closed; nothing is processed any more.
    Terminal,
}

/// What happens to a session.
#[derive(Clone, Copy, Debug)]
pub enum Event<'a> {
    /// The connection is established.
    Established,
    /// A ping frame came in.
    Ping,
    /// A pong frame came in.
    Pong,
    /// A text frame came in.
    Text(&'a str),
    /// A frame of any other kind came in.
    Other,
    /// The client asked to close the connection.
    Close,
    /// The probe timer fired.
    Heartbeat,
    /// The simulation published a snapshot.
    Snapshot,
    /// The simulation reports that the player was eaten.
    Eliminated,
    /// The connection is gone.
    Closed,
}

/// What the transport is to do for a session.
#[derive(Clone, Copy, Debug, PartialEq, Eq, Structural)]
pub enum Command {
    /// Nothing.
    Nothing,
    /// Register the session and admit its player.
    Register,
    /// Send a liveness probe.
    Probe,
    /// Answer the ping with a pong of the same payload.
    Pong,
    /// Hand the movement intent toward this target to the simulation.
    Forward(Point),
    /// Send the snapshot to the client.
    Send,
    /// Confirm the client's close and end the connection.
    Close,
    /// Send [`GAME_OVER_FRAME`], then end the connection.
    GameOver,
    /// End the connection: the client fell silent.
    Stop,
    /// Remove the session and its player from the simulation.
    Unregister,
}

/// One connection.
#[derive(Clone, Copy, Debug, PartialEq, Eq, Structural)]
pub struct Session {
    /// The identifier of the connection and of its player.
    pub id: ClientId,
    /// Where the session is in its life.
    pub phase: Phase,
    /// When the client was last heard of, in milliseconds.
    pub last_seen: u64,
}

/// Milliseconds from `since` to `now`; zero when `now` is the earlier.
pub open spec fn elapsed(now: u64, since: u64) -> int {
    if now >= since {
        now - since
    } else {
        0
    }
}

/// What an active session does with a text frame: it forwards the target
/// of a movement frame and ignores every other text.
pub open spec fn text_command(text: Seq<char>) -> Command {
    match target_of(json_number(text, "x"@), json_number(text, "y"@)) {
        Some(target) => Command::Forward(target),
        None => Command::Nothing,
    }
}

/// The session after `event` at time `now`, and what the transport is to
/// do.
///
/// A session acts only while it is active, but for two things: it
/// registers when the connection is established, and it unregisters, once,
/// when the connection is gone. Every inbound frame counts as a sign of
/// life. At a probe, a client silent for more than [`CLIENT_TIMEOUT_MS`]
/// is dropped.
pub open spec fn next(s: Session, event: Event, now: u64) -> (Session, Command) {
    match s.phase {
        Phase::Connecting => match event {
            Event::Established => (
                Session { phase: Phase::Active, last_seen: now, ..s },
                Command::Register,
            ),
            Event::Closed => (Session { phase: Phase::Terminal, ..s }, Command::Nothing),
            _ => (s, Command::Nothing),
        },
        Phase::Active => match event {
            Event::Established => (s, Command::Nothing),
            Event::Ping => (Session { last_seen: now, ..s }, Command::Pong),
            Event::Pong => (Session { last_seen: now, ..s }, Command::Nothing),
            Event::Text(text) => (Session { last_seen: now, ..s }, text_command(text@)),
            Event::Other => (Session { last_seen: now, ..s }, Command::Nothing),
            Event::Close => (Session { phase: Phase::Disconnected, ..s }, Command::Close),
            Event::Heartbeat => if elapsed(now, s.last_seen) > CLIENT_TIMEOUT_MS {
                (Session { phase: Phase::Disconnected, ..s }, Command::Stop)
            } else {
                (s, Command::Probe)
            },
            Event::Snapshot => (s, Command::Send),
            Event::Eliminated => (Session { phase: Phase::Eliminated, ..s }, Command::GameOver),
            Event::Closed => (Session { phase: Phase::Terminal, ..s }, Command::Unregister),
        },
        Phase::Eliminated | Phase::Disconnected => match event {
            Event::Closed => (Session { phase: Phase::Terminal, ..s }, Command::Unregister),
            _ => (s, Command::Nothing),
        },
        Phase::Terminal => (s, Command::Nothing),
    }
}

impl Session {
    /// A session under `id` whose connection is being set up at `now`.
    pub fn new(id: ClientId, now: u64) -> (s: Session)
        ensures
            s == (Session { id, phase: Phase::Connecting, last_seen: now }),
    {
        Session { id, phase: Phase::Connecting, last_seen: now }
    }

    /// A session under a fresh identifier whose connection is being set up
    /// at `now`.
    pub fn open(now: u64) -> (s: Session)
        ensures
            s.phase == Phase::Connecting,
            s.last_seen == now,
    {
        Session::new(fresh_id(), now)
    }

    /// Takes `event` at time `now`: moves to the next state and returns
    /// what the transport is to do; see [`next`].
    pub fn step(&mut self, event: Event<'_>, now: u64) -> (command: Command)
        ensures
            (*final(self), command) == next(*old(self), event, now),
    {
        match self.phase {
            Phase::Connecting => match event {
                Event::Established => {
                    self.phase = Phase::Active;
                    self.last_seen = now;
                    Command::Register
                },
                Event::Closed => {
                    self.phase = Phase::Terminal;
                    Command::Nothing
                },
                _ => Command::Nothing,
            },
            Phase::Active => match event {
                Event::Established => Command::Nothing,
                Event::Ping => {
                    self.last_seen = now;
                    Command::Pong
                },
                Event::Pong => {
                    self.last_seen = now;
                    Command::Nothing
                },
                Event::Text(text) => {
                    self.last_seen = now;
                    match parse_move(text) {
                        Some(target) => Command::Forward(target),
                        None => Command::Nothing,
                    }
                },
                Event::Other => {
                    self.last_seen = now;
                    Command::Nothing
                },
                Event::Close => {
                    self.phase = Phase::Disconnected;
                    Command::Close
                },
                Event::Heartbeat => {
                    let silent: u64 = if now >= self.last_seen { now - self.last_seen } else { 0 };
                    if silent > CLIENT_TIMEOUT_MS {
                        self.phase = Phase::Disconnected;
                        Command::Stop
                    } else {
                        Command::Probe
                    }
                },
                Event::Snapshot => Command::Send,
                Event::Eliminated => {
                    self.phase = Phase::Eliminated;
                    Command::GameOver
                },
                Event::Closed => {
                    self.phase = Phase::Terminal;
                    Command::Unregister
                },
            },
            Phase::Eliminated | Phase::Disconnected => match event {
                Event::Closed => {
                    self.phase = Phase::Terminal;
                    Command::Unregister
                },
                _ => Command::Nothing,
            },
            Phase::Terminal => Command::Nothing,
        }
    }
}

/// A session never leaves the terminal state, never changes its
/// identifier, and asks to be unregistered at most when its connection is
/// gone.
pub proof fn lemma_session_life(s: Session, event: Event, now: u64)
    ensures
        next(s, event, now).0.id == s.id,
        s.phase == Phase::Terminal ==> next(s, event, now) == (s, Command::Nothing),
        next(s, event, now).1 == Command::Unregister ==> event is Closed && next(
            s,
            event,
            now,
        ).0.phase == Phase::Terminal,
        next(s, event, now).1 == Command::GameOver ==> s.phase == Phase::Active && next(
            s,
            event,
            now,
        ).0.phase == Phase::Eliminated,
{
}

/// A silent client is dropped at the first probe that comes more than the
/// timeout after it was last heard of, and not before.
pub proof fn lemma_silence_is_dropped(s: Session, now: u64)
    requires
        s.phase == Phase::Active,
    ensures
        next(s, Event::Heartbeat, now).1 == Command::Stop <==> now - s.last_seen > CLIENT_TIMEOUT_MS,
        now - s.last_seen <= CLIENT_TIMEOUT_MS ==> next(s, Event::Heartbeat, now) == (s, Command::Probe),
{
}

} // verus!
