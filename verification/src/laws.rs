//! Laws of the route table: what holds of every table and of every sequence
//! of registrations and status reports.

use crate::fairness::lemma_after_same_servers;
use crate::table::{lemma_register_keeps_wf, RouteError, RouteTable, ServerStatus};
use vstd::prelude::*;

verus! {

/// A table records the status of as many servers as it lists.
pub proof fn lemma_one_status_per_server(t: RouteTable)
    requires
        t.wf(),
    ensures
        t.health.dom().finite(),
        t.health.len() == t.endpoints.len(),
        forall|i: int| 0 <= i < t.endpoints.len() ==> t.health.dom().contains(#[trigger] t.endpoints[i]),
{
    t.endpoints.unique_seq_to_set();
    vstd::seq_lib::seq_to_set_is_finite(t.endpoints);
    assert forall|i: int| 0 <= i < t.endpoints.len() implies t.health.dom().contains(
        #[trigger] t.endpoints[i],
    ) by {
        assert(t.endpoints.to_set().contains(t.endpoints[i]));
    }
}

/// A full table refuses every registration with `CapacityExceeded`.
pub proof fn lemma_full_table_refuses(t: RouteTable, endpoint: Seq<char>)
    requires
        t.wf(),
        t.endpoints.len() == t.capacity,
    ensures
        t.try_register(endpoint) == Err::<RouteTable, RouteError>(RouteError::CapacityExceeded),
{
}

/// A registration is accepted exactly when the table has room and does not
/// list the server yet; it then lists one server more, the new one last and
/// running, and it keeps its cursor.
pub proof fn lemma_registration(t: RouteTable, endpoint: Seq<char>)
    requires
        t.wf(),
    ensures
        t.try_register(endpoint) is Ok <==> t.endpoints.len() < t.capacity
            && !t.endpoints.contains(endpoint),
        t.try_register(endpoint) matches Ok(next) ==> {
            &&& next.wf()
            &&& next.endpoints.len() == t.endpoints.len() + 1
            &&& next.endpoints.last() == endpoint
            &&& next.health[endpoint] == ServerStatus::Running
            &&& next.cursor == t.cursor
            &&& next.capacity == t.capacity
        },
{
    lemma_register_keeps_wf(t, endpoint);
}

/// After any sequence of registrations the table lists as many servers more
/// as registrations were accepted, and never more than its capacity.
pub proof fn lemma_registrations_counted(t: RouteTable, names: Seq<Seq<char>>)
    requires
        t.wf(),
    ensures
        t.register_all(names).wf(),
        t.register_all(names).capacity == t.capacity,
        t.register_all(names).cursor == t.cursor,
        t.register_all(names).endpoints.len() == t.endpoints.len() + t.accepted(names),
        t.register_all(names).endpoints.len() <= t.capacity,
    decreases names.len(),
{
    if names.len() > 0 {
        lemma_registrations_counted(t, names.drop_last());
        lemma_register_keeps_wf(t.register_all(names.drop_last()), names.last());
    }
}

/// A sequence of new, distinct servers that fits into the table is accepted
/// whole: the servers are listed in the order given, behind the ones listed
/// before, and each of them is running.
pub proof fn lemma_registrations_within_capacity(t: RouteTable, names: Seq<Seq<char>>)
    requires
        t.wf(),
        (t.endpoints + names).no_duplicates(),
        t.endpoints.len() + names.len() <= t.capacity,
    ensures
        t.accepted(names) == names.len(),
        t.register_all(names).endpoints == t.endpoints + names,
        forall|i: int|
            0 <= i < names.len() ==> t.register_all(names).health[#[trigger] names[i]]
                == ServerStatus::Running,
        forall|i: int|
            0 <= i < t.endpoints.len() ==> t.register_all(names).health[#[trigger] t.endpoints[i]]
                == t.health[t.endpoints[i]],
    decreases names.len(),
{
    if names.len() == 0 {
        assert(t.endpoints + names =~= t.endpoints);
    } else {
        let front = names.drop_last();
        let all = t.endpoints + names;
        assert(t.endpoints + front =~= all.drop_last());
        assert forall|i: int, j: int|
            0 <= i < all.drop_last().len() && 0 <= j < all.drop_last().len() && i != j implies all.drop_last()[i]
            != all.drop_last()[j] by {
            assert(all[i] != all[j]);
        }
        lemma_registrations_within_capacity(t, front);
        let before = t.register_all(front);
        assert(!before.endpoints.contains(names.last())) by {
            if before.endpoints.contains(names.last()) {
                let i = choose|i: int| 0 <= i < before.endpoints.len() && before.endpoints[i] == names.last();
                assert(all[i] == all[all.len() - 1]);
            }
        }
        assert(before.endpoints.push(names.last()) =~= all);
        let after = before.try_register(names.last())->Ok_0;
        assert(before.endpoints.len() == t.endpoints.len() + front.len());
        assert(before.capacity == t.capacity) by {
            lemma_registrations_counted(t, front);
        }
        assert(before.try_register(names.last()) is Ok);
        assert(t.register_all(names) == after);
        assert forall|i: int| 0 <= i < names.len() implies t.register_all(names).health[
        #[trigger] names[i]] == ServerStatus::Running by {
            if i < front.len() {
                assert(front[i] == names[i]);
                assert(all[t.endpoints.len() + i] == names[i]);
                assert(all[all.len() - 1] == names.last());
            }
        }
        assert forall|i: int| 0 <= i < t.endpoints.len() implies t.register_all(names).health[
        #[trigger] t.endpoints[i]] == t.health[t.endpoints[i]] by {
            assert(all[i] == t.endpoints[i]);
            assert(all[all.len() - 1] == names.last());
        }
    }
}

/// Status reports are idempotent: a report made twice leaves the table as
/// the first report left it, and a registered server then has the reported
/// status. A report changes neither the list of servers nor the cursor.
pub proof fn lemma_set_health_idempotent(t: RouteTable, endpoint: Seq<char>, status: ServerStatus)
    requires
        t.wf(),
    ensures
        t.set_health(endpoint, status).set_health(endpoint, status) == t.set_health(
            endpoint,
            status,
        ),
        t.endpoints.contains(endpoint) ==> t.set_health(endpoint, status).health[endpoint]
            == status,
        t.set_health(endpoint, status).endpoints == t.endpoints,
        t.set_health(endpoint, status).cursor == t.cursor,
        t.set_health(endpoint, status).capacity == t.capacity,
        forall|other: Seq<char>|
            other != endpoint && t.health.dom().contains(other) ==> #[trigger] t.set_health(
                endpoint,
                status,
            ).health[other] == t.health[other],
{
    let once = t.set_health(endpoint, status);
    if t.health.dom().contains(endpoint) {
        assert(once.health.insert(endpoint, status) =~= once.health);
    }
    if t.endpoints.contains(endpoint) {
        assert(t.endpoints.to_set().contains(endpoint));
    }
}

/// While every server is stopped, a selection hands out nothing; it changes
/// neither the servers nor their status, and it leaves the cursor inside the
/// table. However often it is repeated, it keeps handing out nothing.
pub proof fn lemma_all_stopped(t: RouteTable, n: nat)
    requires
        t.wf(),
        forall|i: int| 0 <= i < t.endpoints.len() ==> !t.running_at(i),
    ensures
        t.pick() is None,
        t.nth_pick(n) is None,
        t.after(n).wf(),
        t.after(n).endpoints == t.endpoints,
        t.after(n).health == t.health,
        t.after(n).capacity == t.capacity,
    decreases n,
{
    assert(!t.any_running());
    lemma_after_same_servers(t, n);
    let u = t.after(n);
    assert forall|i: int| !u.running_at(i) by {
        assert(u.running_at(i) == t.running_at(i));
    }
}

} // verus!
