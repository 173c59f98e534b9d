//! The executable route table.
//!
//! [`Routes`] keeps the registered servers in registration order, the status
//! of each beside it, and the position of the server that is next in line.
//! Every operation is specified by the matching operation on
//! [`RouteTable`], the value that a `Routes` stands for.

use crate::table::{
    lemma_advance_keeps_wf, lemma_first_running_exists, lemma_first_running_unique,
    lemma_none_running, lemma_register_keeps_wf, lemma_set_health_keeps_wf, lemma_slot_in_range,
    RouteError, RouteTable, ServerStatus,
};
use vstd::prelude::*;

verus! {

/// A fixed-capacity table of backend servers that hands them out in rotation
/// and passes over the ones that are stopped.
#[derive(Debug)]
pub struct Routes {
    capacity: usize,
    servers: Vec<String>,
    read_index: usize,
    status: Vec<ServerStatus>,
}

impl View for Routes {
    type V = RouteTable;

    closed spec fn view(&self) -> RouteTable {
        let names = self.names();
        RouteTable {
            capacity: self.capacity as nat,
            endpoints: names,
            health: Map::new(
                |e: Seq<char>| names.contains(e),
                |e: Seq<char>| self.status@[names.index_of(e)],
            ),
            cursor: self.read_index as nat,
        }
    }
}

impl Routes {
    /// The registered names, in registration order.
    closed spec fn names(&self) -> Seq<Seq<char>> {
        Seq::new(self.servers@.len(), |i: int| self.servers@[i]@)
    }

    /// The status list runs parallel to the server list.
    pub closed spec fn aligned(&self) -> bool {
        self.status@.len() == self.servers@.len()
    }

    /// The invariant that every operation expects and keeps.
    pub open spec fn wf(&self) -> bool {
        &&& self.aligned()
        &&& self@.wf()
    }

    /// In a well-formed table the status list holds, at each position, the
    /// status that the model records for the server registered there.
    proof fn lemma_status_at(&self, i: int)
        requires
            self.wf(),
            0 <= i < self.servers@.len(),
        ensures
            self@.endpoints[i] == self.servers@[i]@,
            self@.health.dom().contains(self@.endpoints[i]),
            self@.health[self@.endpoints[i]] == self.status@[i],
    {
        let names = self.names();
        assert(names[i] == self.servers@[i]@);
        assert(names.contains(names[i]));
        let j = names.index_of(names[i]);
        assert(0 <= j < names.len() && names[j] == names[i]);
    }

    /// Creates an empty table that accepts up to `capacity` servers.
    pub fn new(capacity: usize) -> (routes: Routes)
        ensures
            routes.wf(),
            routes@ == RouteTable::empty(capacity as nat),
    {
        let routes = Routes { capacity, servers: Vec::new(), read_index: 0, status: Vec::new() };
        proof {
            assert(routes@.endpoints =~= Seq::<Seq<char>>::empty());
            assert(routes@.health =~= Map::<Seq<char>, ServerStatus>::empty());
            assert(routes@.endpoints.to_set() =~= Set::<Seq<char>>::empty());
        }
        routes
    }

    /// The position at which `name` is registered, if it is.
    fn position(&self, name: &str) -> (found: Option<usize>)
        requires
            self.wf(),
        ensures
            match found {
                Some(i) => i < self@.endpoints.len() && self@.endpoints[i as int] == name@,
                None => !self@.endpoints.contains(name@),
            },
    {
        let wanted = name.to_owned();
        let mut i: usize = 0;
        while i < self.servers.len()
            invariant
                i <= self.servers@.len(),
                wanted@ == name@,
                forall|j: int| 0 <= j < i ==> self.servers@[j]@ != name@,
            decreases self.servers@.len() - i,
        {
            if self.servers[i] == wanted {
                assert(self.names()[i as int] == name@);
                return Some(i);
            }
            i += 1;
        }
        proof {
            let names = self.names();
            assert forall|j: int| 0 <= j < names.len() implies names[j] != name@ by {
                assert(names[j] == self.servers@[j]@);
            }
        }
        None
    }

    /// Tells whether the server that is next in line is running, without
    /// moving the cursor. An empty table has no such server.
    pub fn is_current_server_running(&self) -> (running: bool)
        requires
            self.wf(),
        ensures
            running == self@.current_is_running(),
    {
        if self.read_index < self.servers.len() {
            proof {
                self.lemma_status_at(self.read_index as int);
            }
            match self.status[self.read_index] {
                ServerStatus::Running => true,
                ServerStatus::Stopped => false,
            }
        } else {
            false
        }
    }

    /// Moves the cursor forward, around the table, to the first running
    /// server and reports whether there is one. When every server is stopped
    /// the cursor has looked at each of them and once more at the first, and
    /// rests one step further than it started.
    fn cycle_and_find_running_server(&mut self) -> (found: bool)
        requires
            old(self).wf(),
        ensures
            final(self).wf(),
            found == old(self)@.any_running(),
            found ==> final(self)@ == (RouteTable {
                cursor: old(self)@.slot(old(self)@.first_running()) as nat,
                ..old(self)@
            }),
            found ==> final(self)@.current_is_running(),
            !found ==> final(self)@ == old(self)@.advance(),
    {
        let len = self.servers.len();
        if len == 0 {
            proof {
                assert(!self@.any_running());
            }
            return false;
        }
        let ghost start = self@;
        proof {
            lemma_full_round(start);
        }
        let mut count: usize = 0;
        while count < len
            invariant
                self.wf(),
                start == old(self)@,
                start.wf(),
                len == start.endpoints.len(),
                len > 0,
                count <= len,
                self@ == (RouteTable { cursor: start.slot(count as int) as nat, ..start }),
                forall|k: int| 0 <= k < count ==> !start.running_at(#[trigger] start.slot(k)),
            decreases len - count,
        {
            proof {
                lemma_slot_in_range(start, count as int);
                self.lemma_status_at(self.read_index as int);
            }
            match self.status[self.read_index] {
                ServerStatus::Running => {
                    proof {
                        assert(start.running_at(start.slot(count as int)));
                        assert(start.is_first_running(count as int));
                        lemma_first_running_unique(start, count as int);
                    }
                    return true;
                },
                ServerStatus::Stopped => {
                    proof {
                        assert(!start.running_at(start.slot(count as int)));
                        lemma_step(start, count as int);
                    }
                    self.read_index = (self.read_index + 1) % len;
                    count += 1;
                    proof {
                        assert(self@.endpoints =~= start.endpoints);
                        assert(self@.health =~= start.health);
                    }
                },
            }
        }
        proof {
            lemma_none_running(start);
            lemma_full_round(start);
            lemma_step(start, 0);
            lemma_slot_in_range(start, 1);
        }
        self.read_index = (self.read_index + 1) % len;
        proof {
            assert(self@.endpoints =~= start.endpoints);
            assert(self@.health =~= start.health);
        }
        false
    }

    /// Registers `route` as a running server at the end of the rotation. A
    /// full table refuses it, and so does a table that already lists it; a
    /// refused registration leaves the table as it was.
    pub fn add_server(&mut self, route: &str) -> (result: Result<(), RouteError>)
        requires
            old(self).wf(),
        ensures
            final(self).wf(),
            match old(self)@.try_register(route@) {
                Ok(table) => result is Ok && final(self)@ == table,
                Err(error) => result == Err::<(), RouteError>(error) && final(self)@ == old(
                    self,
                )@,
            },
    {
        if self.servers.len() >= self.capacity {
            return Err(RouteError::CapacityExceeded);
        }
        if self.position(route).is_some() {
            return Err(RouteError::DuplicateServer);
        }
        let ghost before = *self;
        self.servers.push(route.to_owned());
        self.status.push(ServerStatus::Running);
        proof {
            let table = before@.try_register(route@)->Ok_0;
            lemma_register_keeps_wf(before@, route@);
            let names = self.names();
            assert(names =~= before.names().push(route@));
            assert forall|e: Seq<char>| #[trigger]
                table.health.dom().contains(e) implies self@.health[e] == table.health[e] by {
                let j = names.index_of(e);
                assert(names.contains(e));
                assert(0 <= j < names.len() && names[j] == e);
                if e != route@ {
                    before.lemma_status_at(j);
                }
            }
            assert(self@.health =~= table.health);
        }
        Ok(())
    }

    /// Hands out the next running server and moves the cursor one past it.
    /// The server at the cursor is taken if it is running; otherwise the
    /// table is searched forward, around the end, for the first one that is.
    /// When every server is stopped, or none is registered, the call fails
    /// with `NoServerRunning`; it has then looked at every server and once
    /// more at the first, and leaves the cursor one step further.
    pub fn get_running_server(&mut self) -> (result: Result<String, RouteError>)
        requires
            old(self).wf(),
        ensures
            final(self).wf(),
            final(self)@ == old(self)@.advance(),
            match old(self)@.pick() {
                Some(name) => result matches Ok(server) && server@ == name,
                None => result == Err::<String, RouteError>(RouteError::NoServerRunning),
            },
    {
        let found = self.is_current_server_running() || self.cycle_and_find_running_server();
        if found {
            let ghost at = *self;
            proof {
                at.lemma_status_at(at.read_index as int);
                lemma_first_running_exists(old(self)@);
                lemma_step(old(self)@, old(self)@.first_running());
                if old(self)@.current_is_running() {
                    lemma_full_round(old(self)@);
                    assert(old(self)@.is_first_running(0));
                    lemma_first_running_unique(old(self)@, 0);
                }
                lemma_advance_keeps_wf(old(self)@);
            }
            let server = self.servers[self.read_index].clone();
            self.read_index = (self.read_index + 1) % self.servers.len();
            proof {
                assert(self@.endpoints =~= at@.endpoints);
                assert(self@.health =~= at@.health);
            }
            Ok(server)
        } else {
            Err(RouteError::NoServerRunning)
        }
    }

    /// Records `status` for `server` and tells whether the server is
    /// registered. A report about an unknown server changes nothing.
    pub fn set_health(&mut self, server: &str, status: ServerStatus) -> (known: bool)
        requires
            old(self).wf(),
        ensures
            final(self).wf(),
            final(self)@ == old(self)@.set_health(server@, status),
            known == old(self)@.endpoints.contains(server@),
    {
        match self.position(server) {
            Some(i) => {
                let ghost before = *self;
                self.status.set(i, status);
                proof {
                    let table = before@.set_health(server@, status);
                    lemma_set_health_keeps_wf(before@, server@, status);
                    before.lemma_status_at(i as int);
                    let names = self.names();
                    assert(names =~= before.names());
                    assert forall|e: Seq<char>| #[trigger]
                        table.health.dom().contains(e) implies self@.health[e]
                        == table.health[e] by {
                        let j = names.index_of(e);
                        assert(0 <= j < names.len() && names[j] == e);
                        before.lemma_status_at(j);
                    }
                    assert(self@.health =~= table.health);
                }
                true
            },
            None => false,
        }
    }

    /// Marks `server` as stopped, so that it is passed over until it is
    /// enabled again. Tells whether the server is registered.
    pub fn disable_server(&mut self, server: &str) -> (known: bool)
        requires
            old(self).wf(),
        ensures
            final(self).wf(),
            final(self)@ == old(self)@.set_health(server@, ServerStatus::Stopped),
            known == old(self)@.endpoints.contains(server@),
    {
        self.set_health(server, ServerStatus::Stopped)
    }

    /// Marks `server` as running, so that it takes its turn again. Tells
    /// whether the server is registered.
    pub fn enable_server(&mut self, server: &str) -> (known: bool)
        requires
            old(self).wf(),
        ensures
            final(self).wf(),
            final(self)@ == old(self)@.set_health(server@, ServerStatus::Running),
            known == old(self)@.endpoints.contains(server@),
    {
        self.set_health(server, ServerStatus::Running)
    }

    /// The largest number of servers the table accepts.
    pub fn capacity(&self) -> (capacity: usize)
        requires
            self.wf(),
        ensures
            capacity == self@.capacity,
    {
        self.capacity
    }

    /// The number of registered servers.
    pub fn len(&self) -> (len: usize)
        requires
            self.wf(),
        ensures
            len == self@.endpoints.len(),
    {
        self.servers.len()
    }

    /// The position of the server that is next in line.
    pub fn read_index(&self) -> (index: usize)
        requires
            self.wf(),
        ensures
            index == self@.cursor,
    {
        self.read_index
    }

    /// The status last recorded for `server`, if it is registered.
    pub fn status_of(&self, server: &str) -> (status: Option<ServerStatus>)
        requires
            self.wf(),
        ensures
            status == if self@.health.dom().contains(server@) {
                Some(self@.health[server@])
            } else {
                None
            },
    {
        match self.position(server) {
            Some(i) => {
                proof {
                    self.lemma_status_at(i as int);
                }
                Some(self.status[i])
            },
            None => None,
        }
    }

    /// The registered servers, in registration order.
    pub fn servers(&self) -> (list: Vec<String>)
        requires
            self.wf(),
        ensures
            list@.len() == self@.endpoints.len(),
            forall|i: int| 0 <= i < list@.len() ==> (#[trigger] list@[i])@ == self@.endpoints[i],
    {
        let mut list: Vec<String> = Vec::new();
        let mut i: usize = 0;
        while i < self.servers.len()
            invariant
                i <= self.servers@.len(),
                list@.len() == i,
                forall|j: int| 0 <= j < i ==> (#[trigger] list@[j])@ == self.servers@[j]@,
            decreases self.servers@.len() - i,
        {
            list.push(self.servers[i].clone());
            i += 1;
        }
        proof {
            assert forall|j: int| 0 <= j < list@.len() implies (#[trigger] list@[j])@
                == self@.endpoints[j] by {
                assert(self.names()[j] == self.servers@[j]@);
            }
        }
        list
    }
}

/// One more step from the position reached after `d` steps is the position
/// reached after `d + 1` steps.
proof fn lemma_step(t: RouteTable, d: int)
    requires
        t.endpoints.len() > 0,
        0 <= d,
    ensures
        (t.slot(d) + 1) % (t.endpoints.len() as int) == t.slot(d + 1),
{
    vstd::arithmetic::div_mod::lemma_add_mod_noop(t.cursor + d, 1, t.endpoints.len() as int);
    vstd::arithmetic::div_mod::lemma_mod_twice(t.cursor + d, t.endpoints.len() as int);
    let n = t.endpoints.len() as int;
    if n == 1 {
    } else {
        vstd::arithmetic::div_mod::lemma_small_mod(1, n as nat);
    }
}

/// A full round brings the cursor back to where it started.
proof fn lemma_full_round(t: RouteTable)
    requires
        t.wf(),
        t.endpoints.len() > 0,
    ensures
        t.slot(t.endpoints.len() as int) == t.cursor,
        t.slot(0) == t.cursor,
{
    let n = t.endpoints.len() as int;
    vstd::arithmetic::div_mod::lemma_mod_add_multiples_vanish(t.cursor as int, n);
    vstd::arithmetic::div_mod::lemma_small_mod(t.cursor, n as nat);
}

} // verus!
