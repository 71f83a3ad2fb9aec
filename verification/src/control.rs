//! The applet control loop as a state machine.
//!
//! The loop itself (awaiting events, touching the hostname and the hosts
//! file) is outside work; what is decided here is, for every state and
//! event, the next state and the action owed: apply a canonical identity,
//! or nothing. Once the machine is `Terminated` no event has any effect.

use vstd::prelude::*;

verus! {

/// Configuration of the applet, loaded once at startup.
pub struct AutohostConfig {
    /// Whether to enable the applet or not.
    pub enable: bool,
    /// Path to the hosts file to update (normally /etc/hosts).
    pub etc_hosts: String,
}

/// The default hosts file path.
pub open spec fn default_hosts_path() -> Seq<char> {
    "/etc/hosts"@
}

impl Default for AutohostConfig {
    /// The applet is enabled by default and maintains /etc/hosts.
    fn default() -> (c: AutohostConfig)
        ensures
            c.enable == true,
            c.etc_hosts@ == default_hosts_path(),
    {
        AutohostConfig { enable: true, etc_hosts: String::from_str("/etc/hosts") }
    }
}

/// A canonical identity: the authoritative name and address pair assigned
/// to this host, both carried as the bytes of their textual form.
pub struct CanonicalIdentity {
    /// The fully-qualified domain name.
    pub fqdn: Vec<u8>,
    /// The IPv4 address literal.
    pub ipv4: Vec<u8>,
}

/// An event delivered to the applet. The bus carries further kinds; every
/// one of them reaches the applet as `Other` and is deliberately ignored.
pub enum Event {
    /// A new canonical identity was assigned.
    UpdateCanonical(CanonicalIdentity),
    /// The daemon is shutting down.
    Shutdown,
    /// Any other event kind.
    Other,
}

/// The state of the control loop.
#[derive(Clone, Copy, PartialEq, Eq, Structural, Debug)]
pub enum LoopState {
    /// Awaiting the next event.
    Idle,
    /// The loop has exited; no further event is processed.
    Terminated,
}

/// What the owner of the loop is asked to do in reaction to one event.
pub enum Action {
    /// Set the system hostname to the identity's name and reconcile the
    /// hosts file with the identity's mapping line.
    ApplyIdentity(CanonicalIdentity),
    /// Nothing.
    Nothing,
}

/// The state the loop moves to on processing `event` in `state`.
pub open spec fn next_state(state: LoopState, event: Event) -> LoopState {
    match state {
        LoopState::Terminated => LoopState::Terminated,
        LoopState::Idle => match event {
            Event::Shutdown => LoopState::Terminated,
            _ => LoopState::Idle,
        },
    }
}

/// The action owed on processing `event` in `state`.
pub open spec fn action_for(state: LoopState, event: Event) -> Action {
    match state {
        LoopState::Terminated => Action::Nothing,
        LoopState::Idle => match event {
            Event::UpdateCanonical(id) => Action::ApplyIdentity(id),
            _ => Action::Nothing,
        },
    }
}

/// The state after processing a whole sequence of events in delivery
/// order, starting from `state`.
pub open spec fn state_after(state: LoopState, events: Seq<Event>) -> LoopState
    decreases events.len(),
{
    if events.len() == 0 {
        state
    } else {
        next_state(state_after(state, events.drop_last()), events.last())
    }
}

/// The action owed for the event at position `i`, when the events are
/// processed in delivery order starting from `state`.
pub open spec fn action_at(state: LoopState, events: Seq<Event>, i: int) -> Action {
    action_for(state_after(state, events.take(i)), events[i])
}

/// The `autohost` applet: its configuration, and the decisions it takes
/// for each event.
pub struct Autohost {
    /// The applet configuration.
    pub config: AutohostConfig,
}

impl Autohost {
    /// Creates the applet around its configuration.
    pub fn new(config: AutohostConfig) -> (a: Autohost)
        ensures
            a.config == config,
    {
        Autohost { config }
    }

    /// The state the loop starts in. A disabled applet starts terminated:
    /// it never subscribes to events and never opens the hosts file.
    pub fn start_state(&self) -> (s: LoopState)
        ensures
            s == (if self.config.enable {
                LoopState::Idle
            } else {
                LoopState::Terminated
            }),
    {
        if self.config.enable {
            LoopState::Idle
        } else {
            LoopState::Terminated
        }
    }

    /// Processes one event: returns the next state and the action owed.
    pub fn on_event(&self, state: LoopState, event: Event) -> (r: (LoopState, Action))
        ensures
            r.0 == next_state(state, event),
            r.1 == action_for(state, event),
    {
        match state {
            LoopState::Terminated => (LoopState::Terminated, Action::Nothing),
            LoopState::Idle => match event {
                Event::Shutdown => (LoopState::Terminated, Action::Nothing),
                Event::UpdateCanonical(id) => (LoopState::Idle, Action::ApplyIdentity(id)),
                Event::Other => (LoopState::Idle, Action::Nothing),
            },
        }
    }
}

/// A terminated loop stays terminated, whatever is delivered.
pub proof fn lemma_terminated_stays(events: Seq<Event>)
    ensures
        state_after(LoopState::Terminated, events) == LoopState::Terminated,
    decreases events.len(),
{
    if events.len() > 0 {
        lemma_terminated_stays(events.drop_last());
    }
}

/// Processing distributes over concatenation of event sequences.
pub proof fn lemma_state_after_append(state: LoopState, a: Seq<Event>, b: Seq<Event>)
    ensures
        state_after(state, a + b) == state_after(state_after(state, a), b),
    decreases b.len(),
{
    if b.len() == 0 {
        assert(a + b =~= a);
    } else {
        assert((a + b).drop_last() =~= a + b.drop_last());
        assert((a + b).last() == b.last());
        lemma_state_after_append(state, a, b.drop_last());
    }
}

/// Law: events are processed in delivery order, and once a shutdown event
/// is processed the loop is terminated: no event delivered after it yields
/// any action.
pub proof fn lemma_shutdown_final(state: LoopState, events: Seq<Event>, i: int, j: int)
    requires
        0 <= i < j < events.len(),
        events[i] is Shutdown,
    ensures
        state_after(state, events.take(j)) == LoopState::Terminated,
        action_at(state, events, j) is Nothing,
{
    let upto = events.take(i + 1);
    assert(upto.drop_last() =~= events.take(i));
    assert(upto.last() == events[i]);
    assert(state_after(state, upto) == LoopState::Terminated);
    assert(events.take(j) =~= upto + events.take(j).skip(i + 1));
    lemma_state_after_append(state, upto, events.take(j).skip(i + 1));
    lemma_terminated_stays(events.take(j).skip(i + 1));
}

/// Law: a disabled applet starts terminated, so no event ever yields an
/// action; in particular the hosts file is never touched.
pub proof fn lemma_disabled_no_action(a: Autohost, events: Seq<Event>, i: int)
    requires
        !a.config.enable,
        0 <= i < events.len(),
    ensures
        action_at(
            if a.config.enable {
                LoopState::Idle
            } else {
                LoopState::Terminated
            },
            events,
            i,
        ) is Nothing,
{
    lemma_terminated_stays(events.take(i));
}

} // verus!

