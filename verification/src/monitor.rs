//! What a health probe means for the route table.
//!
//! The probing itself, a network call on a timer, lives outside this
//! library. The monitor asks the table for its servers, probes each of them
//! while it does not hold the table, and reports each outcome here.

use crate::routes::Routes;
use crate::table::ServerStatus;
use vstd::prelude::*;

verus! {

/// The status that a probe's outcome stands for: a server that answered is
/// running, and one that did not, for whatever reason, is stopped.
pub open spec fn probe_status(answered: bool) -> ServerStatus {
    if answered {
        ServerStatus::Running
    } else {
        ServerStatus::Stopped
    }
}

/// The status that a probe's outcome stands for.
pub fn status_after_probe(answered: bool) -> (status: ServerStatus)
    ensures
        status == probe_status(answered),
{
    if answered {
        ServerStatus::Running
    } else {
        ServerStatus::Stopped
    }
}

impl Routes {
    /// Records the outcome of a probe of `server`: the server is running if
    /// it answered and stopped if it did not. Only a server that was not
    /// running before is set running, and a probe of an unknown server
    /// changes nothing. Tells whether the server is registered.
    pub fn record_probe(&mut self, server: &str, answered: bool) -> (known: bool)
        requires
            old(self).wf(),
        ensures
            final(self).wf(),
            final(self)@ == old(self)@.set_health(server@, probe_status(answered)),
            known == old(self)@.endpoints.contains(server@),
    {
        if answered {
            match self.status_of(server) {
                Some(ServerStatus::Running) => {
                    proof {
                        assert(self@.health.insert(server@, ServerStatus::Running)
                            =~= self@.health);
                        assert(self@.endpoints.to_set().contains(server@));
                    }
                    true
                },
                Some(ServerStatus::Stopped) => self.enable_server(server),
                None => {
                    proof {
                        if self@.endpoints.contains(server@) {
                            assert(self@.endpoints.to_set().contains(server@));
                        }
                    }
                    false
                },
            }
        } else {
            self.disable_server(server)
        }
    }
}

} // verus!
