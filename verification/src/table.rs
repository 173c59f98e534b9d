//! The route table as a mathematical value.
//!
//! A [`RouteTable`] is what the executable table stands for, and the
//! operations on it say what each call does. Beside it stand the two small
//! types that both share: the status of a server and the errors of the table.

use vstd::prelude::*;
use vstd::string::*;

verus! {

/// Whether a backend server is currently believed to answer requests.
#[derive(Clone, Copy, Debug, PartialEq, Eq, Structural)]
pub enum ServerStatus {
    /// The server answered its last probe; it may be handed out.
    Running,
    /// The server failed its last probe or was disabled; it is skipped.
    Stopped,
}

/// Why an operation on the route table was refused.
#[derive(Clone, Copy, Debug, PartialEq, Eq, Structural)]
pub enum RouteError {
    /// The table already holds as many servers as it was created for.
    CapacityExceeded,
    /// The server is already registered; a table lists each server once.
    DuplicateServer,
    /// Every registered server is stopped, or none is registered.
    NoServerRunning,
}

impl RouteError {
    /// The text of [`RouteError::message`].
    pub open spec fn spec_message(self) -> Seq<char> {
        match self {
            RouteError::CapacityExceeded => "Not enough capacity!"@,
            RouteError::DuplicateServer => "The server is already registered!"@,
            RouteError::NoServerRunning => "There are no servers running!"@,
        }
    }

    /// A sentence that says what went wrong.
    pub fn message(&self) -> (text: String)
        ensures
            text@ == self.spec_message(),
    {
        match self {
            RouteError::CapacityExceeded => String::from_str("Not enough capacity!"),
            RouteError::DuplicateServer => String::from_str("The server is already registered!"),
            RouteError::NoServerRunning => String::from_str("There are no servers running!"),
        }
    }
}

/// A route table as a mathematical value.
#[verifier::ext_equal]
pub struct RouteTable {
    /// The largest number of servers the table accepts.
    pub capacity: nat,
    /// The registered servers, in the order they were registered.
    pub endpoints: Seq<Seq<char>>,
    /// The status of each registered server.
    pub health: Map<Seq<char>, ServerStatus>,
    /// The position of the server that is next in line.
    pub cursor: nat,
}

impl RouteTable {
    /// The invariant of every table: it is within capacity, lists no server
    /// twice, knows the status of exactly the registered servers, and its
    /// cursor points at one of them (or at zero while the table is empty).
    pub open spec fn wf(self) -> bool {
        &&& self.endpoints.len() <= self.capacity
        &&& self.endpoints.no_duplicates()
        &&& self.health.dom() =~= self.endpoints.to_set()
        &&& self.cursor < self.endpoints.len() || (self.endpoints.len() == 0 && self.cursor == 0)
    }

    /// The table with room for `capacity` servers and none registered.
    pub open spec fn empty(capacity: nat) -> Self {
        RouteTable { capacity, endpoints: Seq::empty(), health: Map::empty(), cursor: 0 }
    }

    /// Registration: a new server is appended and starts out running. A full
    /// table refuses every server, and a table that is not full refuses a
    /// server it already lists.
    pub open spec fn try_register(self, endpoint: Seq<char>) -> Result<Self, RouteError> {
        if self.endpoints.len() >= self.capacity {
            Err(RouteError::CapacityExceeded)
        } else if self.endpoints.contains(endpoint) {
            Err(RouteError::DuplicateServer)
        } else {
            Ok(
                RouteTable {
                    endpoints: self.endpoints.push(endpoint),
                    health: self.health.insert(endpoint, ServerStatus::Running),
                    ..self
                },
            )
        }
    }

    /// A status report: the status of a registered server is replaced, and a
    /// report about an unknown server changes nothing.
    pub open spec fn set_health(self, endpoint: Seq<char>, status: ServerStatus) -> Self {
        if self.health.dom().contains(endpoint) {
            RouteTable { health: self.health.insert(endpoint, status), ..self }
        } else {
            self
        }
    }

    /// Whether position `i` holds a registered server that is running.
    pub open spec fn running_at(self, i: int) -> bool {
        &&& 0 <= i < self.endpoints.len()
        &&& self.health[self.endpoints[i]] == ServerStatus::Running
    }

    /// Whether the server that is next in line is running.
    pub open spec fn current_is_running(self) -> bool {
        self.running_at(self.cursor as int)
    }

    /// Whether any registered server is running.
    pub open spec fn any_running(self) -> bool {
        exists|i: int| self.running_at(i)
    }

    /// The position reached from the cursor after `d` steps around the table.
    pub open spec fn slot(self, d: int) -> int {
        (self.cursor + d) % (self.endpoints.len() as int)
    }

    /// Whether `d` is the number of stopped servers that stand between the
    /// cursor and the first running server, going around the table once.
    pub open spec fn is_first_running(self, d: int) -> bool {
        &&& 0 <= d < self.endpoints.len()
        &&& self.running_at(self.slot(d))
        &&& forall|k: int| 0 <= k < d ==> !self.running_at(#[trigger] self.slot(k))
    }

    /// The number of servers skipped before the first running one.
    pub open spec fn first_running(self) -> int {
        choose|d: int| self.is_first_running(d)
    }

    /// The server that the next selection hands out: the first running server
    /// at or after the cursor, going around the table once; none if every
    /// server is stopped.
    pub open spec fn pick(self) -> Option<Seq<char>> {
        if self.any_running() {
            Some(self.endpoints[self.slot(self.first_running())])
        } else {
            None
        }
    }

    /// The table after one selection. The cursor moves one past the server
    /// handed out. A selection that finds every server stopped has looked at
    /// each of them and once more at the first, so it leaves the cursor one
    /// step further. Nothing else changes.
    pub open spec fn advance(self) -> Self {
        if self.endpoints.len() == 0 {
            self
        } else if self.any_running() {
            RouteTable { cursor: self.slot(self.first_running() + 1) as nat, ..self }
        } else {
            RouteTable { cursor: self.slot(1) as nat, ..self }
        }
    }

    /// The table after `n` selections in a row, with no change of status in
    /// between.
    pub open spec fn after(self, n: nat) -> Self
        decreases n,
    {
        if n == 0 {
            self
        } else {
            self.after((n - 1) as nat).advance()
        }
    }

    /// What the selection numbered `n`, counting from zero, hands out.
    pub open spec fn nth_pick(self, n: nat) -> Option<Seq<char>> {
        self.after(n).pick()
    }

    /// The number of running servers among the first `m` positions.
    pub open spec fn running_among(self, m: int) -> nat
        decreases m,
    {
        if m <= 0 {
            0
        } else {
            self.running_among(m - 1) + if self.running_at(m - 1) {
                1nat
            } else {
                0nat
            }
        }
    }

    /// The number of running servers.
    pub open spec fn running_count(self) -> nat {
        self.running_among(self.endpoints.len() as int)
    }

    /// Whether every registered server is running.
    pub open spec fn all_running(self) -> bool {
        forall|i: int| 0 <= i < self.endpoints.len() ==> self.running_at(i)
    }

    /// The number of steps around the table from the cursor to the position
    /// at which `endpoint` is registered.
    pub open spec fn steps_to(self, endpoint: Seq<char>) -> int {
        (self.endpoints.index_of(endpoint) - self.cursor) % (self.endpoints.len() as int)
    }

    /// The table after each of `names` has been offered for registration in
    /// turn; a refused name leaves the table as it was.
    pub open spec fn register_all(self, names: Seq<Seq<char>>) -> Self
        decreases names.len(),
    {
        if names.len() == 0 {
            self
        } else {
            let before = self.register_all(names.drop_last());
            match before.try_register(names.last()) {
                Ok(table) => table,
                Err(_) => before,
            }
        }
    }

    /// How many of `names`, offered for registration in turn, are accepted.
    pub open spec fn accepted(self, names: Seq<Seq<char>>) -> nat
        decreases names.len(),
    {
        if names.len() == 0 {
            0
        } else {
            let before = self.register_all(names.drop_last());
            self.accepted(names.drop_last()) + if before.try_register(names.last()) is Ok {
                1nat
            } else {
                0nat
            }
        }
    }
}

/// An accepted registration keeps the invariant.
pub proof fn lemma_register_keeps_wf(t: RouteTable, endpoint: Seq<char>)
    requires
        t.wf(),
    ensures
        t.try_register(endpoint) matches Ok(next) ==> next.wf(),
{
    if let Ok(next) = t.try_register(endpoint) {
        assert(next.endpoints.to_set() =~= t.endpoints.to_set().insert(endpoint)) by {
            assert forall|e: Seq<char>| next.endpoints.to_set().contains(e) implies t.endpoints.to_set().insert(
                endpoint,
            ).contains(e) by {
                let i = choose|i: int| 0 <= i < next.endpoints.len() && next.endpoints[i] == e;
                if i < t.endpoints.len() {
                    assert(t.endpoints[i] == e);
                }
            }
            assert forall|e: Seq<char>|
                t.endpoints.to_set().insert(endpoint).contains(
                    e,
                ) implies next.endpoints.to_set().contains(e) by {
                if e == endpoint {
                    assert(next.endpoints[t.endpoints.len() as int] == e);
                } else {
                    let i = choose|i: int| 0 <= i < t.endpoints.len() && t.endpoints[i] == e;
                    assert(next.endpoints[i] == e);
                }
            }
        }
    }
}

/// A status report keeps the invariant.
pub proof fn lemma_set_health_keeps_wf(t: RouteTable, endpoint: Seq<char>, status: ServerStatus)
    requires
        t.wf(),
    ensures
        t.set_health(endpoint, status).wf(),
{
    if t.health.dom().contains(endpoint) {
        assert(t.health.insert(endpoint, status).dom() =~= t.health.dom());
    }
}

/// Going around a table of `n` servers from `cursor`, position `i` is reached
/// after `(i - cursor) mod n` steps.
pub proof fn lemma_slot_reaches(t: RouteTable, i: int)
    requires
        t.wf(),
        0 <= i < t.endpoints.len(),
    ensures
        0 <= (i - t.cursor) % (t.endpoints.len() as int) < t.endpoints.len(),
        t.slot((i - t.cursor) % (t.endpoints.len() as int)) == i,
{
    let n = t.endpoints.len() as int;
    let c = t.cursor as int;
    if i >= c {
        vstd::arithmetic::div_mod::lemma_small_mod((i - c) as nat, n as nat);
        vstd::arithmetic::div_mod::lemma_small_mod(i as nat, n as nat);
    } else {
        vstd::arithmetic::div_mod::lemma_mod_add_multiples_vanish(i - c, n);
        vstd::arithmetic::div_mod::lemma_small_mod((i - c + n) as nat, n as nat);
        vstd::arithmetic::div_mod::lemma_mod_add_multiples_vanish(i, n);
        vstd::arithmetic::div_mod::lemma_small_mod(i as nat, n as nat);
    }
}

/// Every step count yields a position inside the table.
pub proof fn lemma_slot_in_range(t: RouteTable, d: int)
    requires
        t.endpoints.len() > 0,
    ensures
        0 <= t.slot(d) < t.endpoints.len(),
{
    vstd::arithmetic::div_mod::lemma_mod_bound(t.cursor + d, t.endpoints.len() as int);
}

/// If no server within the first `d` steps is running, and one is running
/// somewhere, the first running server lies at `d` steps or beyond.
proof fn lemma_first_running_from(t: RouteTable, d: int)
    requires
        t.wf(),
        0 <= d <= t.endpoints.len(),
        forall|k: int| 0 <= k < d ==> !t.running_at(#[trigger] t.slot(k)),
        exists|k: int| d <= k < t.endpoints.len() && t.running_at(#[trigger] t.slot(k)),
    ensures
        exists|f: int| t.is_first_running(f),
    decreases t.endpoints.len() - d,
{
    if t.running_at(t.slot(d)) {
        assert(t.is_first_running(d));
    } else {
        lemma_first_running_from(t, d + 1);
    }
}

/// While some server is running, the first running server after the cursor
/// exists, so `first_running` denotes it.
pub proof fn lemma_first_running_exists(t: RouteTable)
    requires
        t.wf(),
        t.any_running(),
    ensures
        t.is_first_running(t.first_running()),
{
    let i = choose|i: int| t.running_at(i);
    lemma_slot_reaches(t, i);
    let d = (i - t.cursor) % (t.endpoints.len() as int);
    assert(t.running_at(t.slot(d)));
    lemma_first_running_from(t, 0);
}

/// There is only one first running server.
pub proof fn lemma_first_running_unique(t: RouteTable, d: int)
    requires
        t.is_first_running(d),
    ensures
        t.any_running(),
        t.first_running() == d,
{
    let f = t.first_running();
    assert(t.is_first_running(f));
    assert(t.running_at(t.slot(d)));
    if f < d {
        assert(!t.running_at(t.slot(f)));
    }
    if d < f {
        assert(!t.running_at(t.slot(d)));
    }
}

/// If a whole round finds no running server, none is running.
pub proof fn lemma_none_running(t: RouteTable)
    requires
        t.wf(),
        forall|k: int| 0 <= k < t.endpoints.len() ==> !t.running_at(#[trigger] t.slot(k)),
    ensures
        !t.any_running(),
{
    if t.any_running() {
        let i = choose|i: int| t.running_at(i);
        lemma_slot_reaches(t, i);
        let d = (i - t.cursor) % (t.endpoints.len() as int);
        assert(t.running_at(t.slot(d)));
    }
}

/// A selection keeps the invariant.
pub proof fn lemma_advance_keeps_wf(t: RouteTable)
    requires
        t.wf(),
    ensures
        t.advance().wf(),
{
    if t.endpoints.len() > 0 {
        lemma_slot_in_range(t, t.first_running() + 1);
        lemma_slot_in_range(t, 1);
    }
}

} // verus!
