use vstd::prelude::*;

verus! {

/// The most connections served at once.
pub const MAX_CONNECTIONS: usize = 1024;

/// The longest wait, in seconds, after a failed accept before the failure
/// counts as fatal.
pub const MAX_BACKOFF: u64 = 64;

/// Where the server is in its life.
#[derive(PartialEq, Eq, Structural, Debug, Clone, Copy)]
pub enum Phase {
    /// Taking new connections.
    Accepting,
    /// No longer taking connections; waiting for the running handlers.
    Draining,
    /// Every handler has ended.
    Closed,
}

/// The orchestrator's state, as a value.
pub struct ServerState {
    pub phase: Phase,
    pub active: nat,
    pub cap: nat,
}

/// The state of a new server with room for `cap` connections.
pub open spec fn initial(cap: nat) -> ServerState {
    ServerState { phase: Phase::Accepting, active: 0, cap }
}

/// A new connection asks for a slot: it gets one while the server accepts
/// and a slot is free.
pub open spec fn accept_one(s: ServerState) -> (ServerState, bool) {
    if s.phase == Phase::Accepting && s.active < s.cap {
        (ServerState { active: s.active + 1, ..s }, true)
    } else {
        (s, false)
    }
}

/// A handler ends and gives its slot back; the last one to end while the
/// server drains closes it.
pub open spec fn release(s: ServerState) -> ServerState {
    let active = if s.active > 0 {
        (s.active - 1) as nat
    } else {
        0
    };
    let phase = if s.phase == Phase::Draining && active == 0 {
        Phase::Closed
    } else {
        s.phase
    };
    ServerState { phase, active, cap: s.cap }
}

/// The shutdown trigger fires: no more connections; closed at once where
/// no handler runs.
pub open spec fn shut_down(s: ServerState) -> ServerState {
    if s.phase == Phase::Accepting {
        ServerState {
            phase: if s.active == 0 {
                Phase::Closed
            } else {
                Phase::Draining
            },
            ..s
        }
    } else {
        s
    }
}

/// `k` admissions in a row.
pub open spec fn accept_n(s: ServerState, k: nat) -> ServerState
    decreases k,
{
    if k == 0 {
        s
    } else {
        accept_one(accept_n(s, (k - 1) as nat)).0
    }
}

/// `k` releases in a row.
pub open spec fn release_n(s: ServerState, k: nat) -> ServerState
    decreases k,
{
    if k == 0 {
        s
    } else {
        release(release_n(s, (k - 1) as nat))
    }
}

/// Admission control and the shutdown protocol of the accept loop.
pub struct Server {
    phase: Phase,
    active: usize,
    cap: usize,
}

impl View for Server {
    type V = ServerState;

    closed spec fn view(&self) -> ServerState {
        ServerState { phase: self.phase, active: self.active as nat, cap: self.cap as nat }
    }
}

impl Server {
    pub closed spec fn wf(&self) -> bool {
        self.active <= self.cap
    }

    /// A server with room for `cap` connections at once.
    pub fn new(cap: usize) -> (r: Server)
        ensures
            r@ == initial(cap as nat),
            r.wf(),
    {
        Server { phase: Phase::Accepting, active: 0, cap }
    }

    pub fn phase(&self) -> (r: Phase)
        ensures
            r == self@.phase,
    {
        self.phase
    }

    pub fn active(&self) -> (r: usize)
        ensures
            r as nat == self@.active,
    {
        self.active
    }

    /// Takes a slot for a new connection, where one is free and the server
    /// still accepts.
    pub fn try_admit(&mut self) -> (r: bool)
        requires
            old(self).wf(),
        ensures
            (final(self)@, r) == accept_one(old(self)@),
            final(self).wf(),
    {
        if self.phase == Phase::Accepting && self.active < self.cap {
            self.active = self.active + 1;
            true
        } else {
            false
        }
    }

    /// Gives back the slot of a handler that ended.
    pub fn release(&mut self)
        requires
            old(self).wf(),
        ensures
            final(self)@ == release(old(self)@),
            final(self).wf(),
    {
        if self.active > 0 {
            self.active = self.active - 1;
        }
        if self.phase == Phase::Draining && self.active == 0 {
            self.phase = Phase::Closed;
        }
    }

    /// Stops taking connections and starts waiting for the handlers.
    pub fn shut_down(&mut self)
        requires
            old(self).wf(),
        ensures
            final(self)@ == shut_down(old(self)@),
            final(self).wf(),
    {
        if self.phase == Phase::Accepting {
            self.phase = if self.active == 0 {
                Phase::Closed
            } else {
                Phase::Draining
            };
        }
    }
}

/// After a failed accept: how long to wait before the next try, and the
/// wait after that; or `None` where the wait has grown past the ceiling and
/// the failure is fatal.
pub fn next_backoff(backoff: u64) -> (r: Option<(u64, u64)>)
    ensures
        backoff > MAX_BACKOFF ==> r is None,
        backoff <= MAX_BACKOFF ==> r == Some((backoff, (backoff * 2) as u64)),
{
    if backoff > MAX_BACKOFF {
        None
    } else {
        Some((backoff, backoff * 2))
    }
}

proof fn lemma_accept_n(cap: nat, k: nat)
    requires
        k <= cap,
    ensures
        accept_n(initial(cap), k) == (ServerState { phase: Phase::Accepting, active: k, cap }),
        forall|j: nat| j < k ==> (#[trigger] accept_one(accept_n(initial(cap), j))).1,
    decreases k,
{
    if k > 0 {
        lemma_accept_n(cap, (k - 1) as nat);
        assert forall|j: nat| j < k implies (#[trigger] accept_one(accept_n(initial(cap), j))).1 by {
            if j < k - 1 {
            } else {
                assert(j == k - 1);
            }
        }
    }
}

/// With room for `cap` connections, the first `cap` are admitted, the next
/// one is not, and it is once one of the first has ended.
pub proof fn lemma_admission(cap: nat)
    requires
        cap > 0,
    ensures
        forall|j: nat| j < cap ==> (#[trigger] accept_one(accept_n(initial(cap), j))).1,
        !accept_one(accept_n(initial(cap), cap)).1,
        accept_one(release(accept_n(initial(cap), cap))).1,
{
    lemma_accept_n(cap, cap);
}

proof fn lemma_release_n(s: ServerState, k: nat)
    requires
        s.phase == Phase::Draining,
        0 < s.active,
        k <= s.active,
    ensures
        release_n(s, k).active == s.active - k,
        release_n(s, k).cap == s.cap,
        release_n(s, k).phase == if k == s.active {
            Phase::Closed
        } else {
            Phase::Draining
        },
    decreases k,
{
    if k > 0 {
        lemma_release_n(s, (k - 1) as nat);
    }
}

/// Once shutdown is triggered while `m` handlers run, no connection is
/// admitted any more, and the server is closed after exactly `m` of them
/// have ended, not before.
pub proof fn lemma_shutdown_drains(cap: nat, m: nat, k: nat)
    requires
        m <= cap,
        k <= m,
    ensures
        ({
            let d = shut_down(accept_n(initial(cap), m));
            &&& !accept_one(release_n(d, k)).1
            &&& (release_n(d, k).phase == Phase::Closed <==> k == m)
        }),
{
    lemma_accept_n(cap, m);
    let d = shut_down(accept_n(initial(cap), m));
    if m > 0 {
        lemma_release_n(d, k);
    } else {
        assert(release_n(d, k) == d);
    }
}

} // verus!
