//! Round-robin fairness of the route table.
//!
//! While no status changes, successive selections walk through the running
//! servers in rotation order: each running server is handed out once before
//! any is handed out again.

use crate::table::{
    lemma_advance_keeps_wf, lemma_first_running_unique, lemma_slot_in_range, lemma_slot_reaches,
    RouteTable, ServerStatus,
};
use vstd::prelude::*;

verus! {

/// The table `t` with its cursor moved to the position `s` steps on.
pub open spec fn moved(t: RouteTable, s: int) -> RouteTable {
    RouteTable { cursor: t.slot(s) as nat, ..t }
}

/// Whether the server `d` steps from the cursor is running.
spec fn running_step(t: RouteTable, d: int) -> bool {
    t.running_at(t.slot(d))
}

/// The number of running servers met in the first `d` steps from the cursor.
spec fn running_before(t: RouteTable, d: int) -> nat
    decreases d,
{
    if d <= 0 {
        0
    } else {
        running_before(t, d - 1) + if running_step(t, d - 1) {
            1nat
        } else {
            0nat
        }
    }
}

/// The number of steps from the cursor to the running server that has
/// exactly `j` running servers before it on the way.
spec fn nth_running_step(t: RouteTable, j: nat) -> int {
    choose|d: int| is_nth_running_step(t, j, d)
}

/// Whether the server `d` steps from the cursor, less than a full round away,
/// is running and has exactly `j` running servers before it on the way.
spec fn is_nth_running_step(t: RouteTable, j: nat, d: int) -> bool {
    &&& 0 <= d < t.endpoints.len()
    &&& running_step(t, d)
    &&& running_before(t, d) == j
}

/// Walking `s` steps and then `f` more is walking `s + f` steps.
proof fn lemma_moved_slot(t: RouteTable, s: int, f: int)
    requires
        t.endpoints.len() > 0,
    ensures
        moved(t, s).slot(f) == t.slot(s + f),
{
    let n = t.endpoints.len() as int;
    lemma_slot_in_range(t, s);
    vstd::arithmetic::div_mod::lemma_add_mod_noop(t.cursor + s, f, n);
    vstd::arithmetic::div_mod::lemma_mod_twice(t.cursor + s, n);
    vstd::arithmetic::div_mod::lemma_add_mod_noop(t.slot(s), f, n);
    vstd::arithmetic::div_mod::lemma_mod_twice(t.slot(s), n);
}

/// A full round more leads to the same position.
proof fn lemma_slot_periodic(t: RouteTable, d: int)
    requires
        t.endpoints.len() > 0,
    ensures
        t.slot(d + t.endpoints.len()) == t.slot(d),
{
    vstd::arithmetic::div_mod::lemma_mod_add_multiples_vanish(
        t.cursor + d,
        t.endpoints.len() as int,
    );
}

/// Within one round the walk goes up to the end of the table and then starts
/// over at its beginning.
proof fn lemma_slot_explicit(t: RouteTable, d: int)
    requires
        t.wf(),
        0 <= d < t.endpoints.len(),
    ensures
        t.slot(d) == if t.cursor + d < t.endpoints.len() {
            t.cursor + d
        } else {
            t.cursor + d - t.endpoints.len()
        },
{
    let n = t.endpoints.len() as int;
    let c = t.cursor as int;
    if c + d < n {
        vstd::arithmetic::div_mod::lemma_small_mod((c + d) as nat, n as nat);
    } else {
        vstd::arithmetic::div_mod::lemma_mod_add_multiples_vanish(c + d - n, n);
        vstd::arithmetic::div_mod::lemma_small_mod((c + d - n) as nat, n as nat);
    }
}

/// Within one round, different step counts lead to different positions.
proof fn lemma_slot_injective(t: RouteTable, d1: int, d2: int)
    requires
        t.wf(),
        0 <= d1 < t.endpoints.len(),
        0 <= d2 < t.endpoints.len(),
        t.slot(d1) == t.slot(d2),
    ensures
        d1 == d2,
{
    lemma_slot_explicit(t, d1);
    lemma_slot_explicit(t, d2);
}

/// The count of running servers met never shrinks as the walk goes on.
proof fn lemma_running_before_monotone(t: RouteTable, a: int, b: int)
    requires
        a <= b,
    ensures
        running_before(t, a) <= running_before(t, b),
    decreases b - a,
{
    if a < b {
        lemma_running_before_monotone(t, a, b - 1);
    }
}

/// A stretch of the walk on which the count does not grow holds no running
/// server.
proof fn lemma_no_running_between(t: RouteTable, a: int, b: int)
    requires
        0 <= a <= b,
        running_before(t, a) == running_before(t, b),
    ensures
        forall|k: int| a <= k < b ==> !running_step(t, k),
    decreases b - a,
{
    if a < b {
        lemma_running_before_monotone(t, a, b - 1);
        lemma_no_running_between(t, a, b - 1);
    }
}

/// A stretch of the walk on which the count grows holds a first running
/// server.
proof fn lemma_next_running(t: RouteTable, a: int, b: int) -> (d: int)
    requires
        0 <= a <= b,
        running_before(t, a) < running_before(t, b),
    ensures
        a <= d < b,
        running_step(t, d),
        forall|k: int| a <= k < d ==> !running_step(t, k),
        running_before(t, d) == running_before(t, a),
    decreases b - a,
{
    if running_step(t, a) {
        a
    } else {
        assert(running_before(t, a + 1) == running_before(t, a));
        lemma_next_running(t, a + 1, b)
    }
}

/// A selection made with the cursor `s` steps on hands out the first running
/// server from there and leaves the cursor one step past it.
proof fn lemma_pick_from(t: RouteTable, s: int, d: int)
    requires
        t.wf(),
        t.endpoints.len() > 0,
        0 <= s <= d < s + t.endpoints.len(),
        running_step(t, d),
        forall|k: int| s <= k < d ==> !running_step(t, k),
    ensures
        moved(t, s).pick() == Some(t.endpoints[t.slot(d)]),
        moved(t, s).advance() == moved(t, d + 1),
{
    let u = moved(t, s);
    lemma_slot_in_range(t, s);
    lemma_moved_slot(t, s, d - s);
    assert forall|k: int| 0 <= k < d - s implies !u.running_at(#[trigger] u.slot(k)) by {
        lemma_moved_slot(t, s, k);
        assert(!running_step(t, s + k));
    }
    assert(u.running_at(u.slot(d - s)));
    assert(u.is_first_running(d - s));
    lemma_first_running_unique(u, d - s);
    lemma_moved_slot(t, s, d - s + 1);
}

/// No status changes while selections are made, and the invariant holds
/// throughout.
pub proof fn lemma_after_same_servers(t: RouteTable, n: nat)
    requires
        t.wf(),
    ensures
        t.after(n).wf(),
        t.after(n).capacity == t.capacity,
        t.after(n).endpoints == t.endpoints,
        t.after(n).health == t.health,
    decreases n,
{
    if n > 0 {
        lemma_after_same_servers(t, (n - 1) as nat);
        lemma_advance_keeps_wf(t.after((n - 1) as nat));
    }
}

/// The selection numbered `j` hands out the running server that has exactly
/// `j` running servers between the cursor and itself, as long as `j` is less
/// than the number of running servers.
proof fn lemma_nth_selection(t: RouteTable, j: nat)
    requires
        t.wf(),
        t.endpoints.len() > 0,
        j < running_before(t, t.endpoints.len() as int),
    ensures
        is_nth_running_step(t, j, nth_running_step(t, j)),
        t.nth_pick(j) == Some(t.endpoints[t.slot(nth_running_step(t, j))]),
        t.after(j + 1) == moved(t, nth_running_step(t, j) + 1),
    decreases j,
{
    let n = t.endpoints.len() as int;
    if j == 0 {
        let d = lemma_next_running(t, 0, n);
        assert(is_nth_running_step(t, j, d));
        lemma_nth_running_step_unique(t, j, d);
        assert(moved(t, 0) == t) by {
            vstd::arithmetic::div_mod::lemma_small_mod(t.cursor, n as nat);
        }
        lemma_pick_from(t, 0, d);
        assert(t.after(0) == t);
        assert(t.after(1) == t.after(0).advance());
    } else {
        let i = (j - 1) as nat;
        lemma_nth_selection(t, i);
        let s = nth_running_step(t, i) + 1;
        assert(running_before(t, s) == j);
        let d = lemma_next_running(t, s, n);
        assert(is_nth_running_step(t, j, d));
        lemma_nth_running_step_unique(t, j, d);
        lemma_pick_from(t, s, d);
        assert(t.after(j) == moved(t, s));
        assert(t.after(j + 1) == t.after(j).advance());
    }
}

/// At most one step count has a given number of running servers before it.
proof fn lemma_nth_running_step_unique(t: RouteTable, j: nat, d: int)
    requires
        is_nth_running_step(t, j, d),
    ensures
        nth_running_step(t, j) == d,
{
    let e = nth_running_step(t, j);
    assert(is_nth_running_step(t, j, e));
    if e < d {
        lemma_running_before_monotone(t, e + 1, d);
    }
    if d < e {
        lemma_running_before_monotone(t, d + 1, e);
    }
}

/// The walk of one full round meets every position once, so it meets as many
/// running servers as the table holds.
proof fn lemma_running_before_rotates(t: RouteTable, d: int)
    requires
        t.wf(),
        0 <= d <= t.endpoints.len(),
    ensures
        running_before(t, d) == if t.cursor + d <= t.endpoints.len() {
            t.running_among(t.cursor + d) - t.running_among(t.cursor as int)
        } else {
            t.running_among(t.endpoints.len() as int) - t.running_among(t.cursor as int)
                + t.running_among(t.cursor + d - t.endpoints.len())
        },
    decreases d,
{
    let n = t.endpoints.len() as int;
    let c = t.cursor as int;
    if d > 0 {
        let k = d - 1;
        lemma_running_before_rotates(t, k);
        lemma_slot_explicit(t, k);
        lemma_running_among_monotone(t, c, n);
        let met: nat = if running_step(t, k) {
            1
        } else {
            0
        };
        assert(running_before(t, d) == running_before(t, k) + met);
        if c + d <= n {
            assert(t.slot(k) == c + k);
            assert(t.running_among(c + d) == t.running_among(c + k) + met);
        } else {
            assert(t.slot(k) == c + k - n);
            assert(t.running_among(c + d - n) == t.running_among(c + k - n) + met);
            if c + k == n {
                assert(t.running_among(0) == 0);
            }
        }
    } else {
        assert(running_before(t, 0) == 0);
    }
}

/// Counting running servers over more positions never gives less.
proof fn lemma_running_among_monotone(t: RouteTable, a: int, b: int)
    requires
        a <= b,
    ensures
        t.running_among(a) <= t.running_among(b),
    decreases b - a,
{
    if a < b {
        lemma_running_among_monotone(t, a, b - 1);
    }
}

/// One full round from the cursor meets exactly the running servers of the
/// table.
proof fn lemma_full_round_count(t: RouteTable)
    requires
        t.wf(),
    ensures
        running_before(t, t.endpoints.len() as int) == t.running_count(),
{
    lemma_running_before_rotates(t, t.endpoints.len() as int);
    lemma_running_among_monotone(t, t.cursor as int, t.endpoints.len() as int);
    assert(t.running_among(0) == 0);
}

/// The number of steps from the cursor to the server that stands `d` steps
/// from the cursor is `d`.
proof fn lemma_steps_to_slot(t: RouteTable, d: int)
    requires
        t.wf(),
        0 <= d < t.endpoints.len(),
    ensures
        t.steps_to(t.endpoints[t.slot(d)]) == d,
{
    lemma_slot_in_range(t, d);
    let p = t.slot(d);
    let e = t.endpoints[p];
    let q = t.endpoints.index_of(e);
    assert(0 <= q < t.endpoints.len() && t.endpoints[q] == e);
    assert(q == p);
    lemma_slot_reaches(t, p);
    lemma_slot_injective(t, t.steps_to(e), d);
}

/// Each of the first selections, as many as there are running servers, hands
/// out a running server.
pub proof fn lemma_pick_is_running(t: RouteTable, j: nat)
    requires
        t.wf(),
        j < t.running_count(),
    ensures
        t.nth_pick(j) matches Some(e) && t.endpoints.contains(e) && t.health[e]
            == ServerStatus::Running,
{
    lemma_full_round_count(t);
    lemma_nth_selection(t, j);
    lemma_slot_in_range(t, nth_running_step(t, j));
}

/// The first selections, as many as there are running servers, go through
/// the table in rotation order from the cursor: a later selection hands out a
/// server that stands more steps away, so no server is handed out twice.
pub proof fn lemma_picks_in_rotation_order(t: RouteTable, i: nat, j: nat)
    requires
        t.wf(),
        i < j < t.running_count(),
    ensures
        t.nth_pick(i) is Some,
        t.nth_pick(j) is Some,
        0 <= t.steps_to(t.nth_pick(i)->Some_0) < t.steps_to(t.nth_pick(j)->Some_0)
            < t.endpoints.len(),
        t.nth_pick(i) != t.nth_pick(j),
{
    lemma_full_round_count(t);
    lemma_nth_selection(t, i);
    lemma_nth_selection(t, j);
    let di = nth_running_step(t, i);
    let dj = nth_running_step(t, j);
    lemma_steps_to_slot(t, di);
    lemma_steps_to_slot(t, dj);
    if dj <= di {
        lemma_running_before_monotone(t, dj, di);
    }
}

/// Every running server is handed out by one of the first selections, as
/// many as there are running servers; the result is the number of that
/// selection.
pub proof fn lemma_running_server_is_picked(t: RouteTable, p: int) -> (j: nat)
    requires
        t.wf(),
        t.running_at(p),
    ensures
        j < t.running_count(),
        t.nth_pick(j) == Some(t.endpoints[p]),
{
    lemma_full_round_count(t);
    lemma_slot_reaches(t, p);
    let n = t.endpoints.len() as int;
    let d = (p - t.cursor) % n;
    let j = running_before(t, d);
    assert(running_before(t, d + 1) == j + 1);
    lemma_running_before_monotone(t, d + 1, n);
    assert(is_nth_running_step(t, j, d));
    lemma_nth_running_step_unique(t, j, d);
    lemma_nth_selection(t, j);
    j
}

/// Once every running server has had its turn, the rotation starts over: the
/// next selection hands out the same server as the first one did.
pub proof fn lemma_rotation_repeats(t: RouteTable)
    requires
        t.wf(),
        t.running_count() > 0,
    ensures
        t.nth_pick(t.running_count()) == t.nth_pick(0),
{
    lemma_full_round_count(t);
    let n = t.endpoints.len() as int;
    assert(n > 0);
    let count = t.running_count();
    let last = (count - 1) as nat;
    lemma_nth_selection(t, 0);
    lemma_nth_selection(t, last);
    let first_step = nth_running_step(t, 0);
    let s = nth_running_step(t, last) + 1;
    if first_step >= s {
        lemma_running_before_monotone(t, s, first_step);
    }
    assert(running_before(t, s) == count);
    lemma_no_running_between(t, s, n);
    lemma_no_running_between(t, 0, first_step);
    lemma_slot_periodic(t, first_step);
    assert forall|k: int| s <= k < n + first_step implies !running_step(t, k) by {
        if k >= n {
            lemma_slot_periodic(t, k - n);
            assert(!running_step(t, k - n));
        }
    }
    lemma_pick_from(t, s, n + first_step);
    assert(t.after(count) == moved(t, s));
}

/// Selections made in two runs are the selections made in one.
proof fn lemma_after_after(t: RouteTable, a: nat, b: nat)
    ensures
        t.after(a).after(b) == t.after(a + b),
    decreases b,
{
    if b > 0 {
        lemma_after_after(t, a, (b - 1) as nat);
        assert(t.after(a + b) == t.after((a + b - 1) as nat).advance());
    }
}

/// Tables that list the same servers with the same status hold equally many
/// running servers.
proof fn lemma_same_servers_same_count(t: RouteTable, u: RouteTable, m: int)
    requires
        t.endpoints == u.endpoints,
        t.health == u.health,
    ensures
        t.running_among(m) == u.running_among(m),
    decreases m,
{
    if m > 0 {
        lemma_same_servers_same_count(t, u, m - 1);
        assert(t.running_at(m - 1) == u.running_at(m - 1));
    }
}

/// While no status changes, the selections repeat with the number of running
/// servers as their period: from any selection on, the same server is handed
/// out again after every other running server has had its turn.
pub proof fn lemma_rotation_period(t: RouteTable, j: nat)
    requires
        t.wf(),
        t.running_count() > 0,
    ensures
        t.nth_pick(j + t.running_count()) == t.nth_pick(j),
{
    let u = t.after(j);
    lemma_after_same_servers(t, j);
    lemma_same_servers_same_count(t, u, t.endpoints.len() as int);
    lemma_rotation_repeats(u);
    lemma_after_after(t, j, 0);
    lemma_after_after(t, j, t.running_count());
}

/// Round-robin fairness. While no status changes, the first selections, as
/// many as there are running servers, hand out each running server exactly
/// once, in rotation order from the cursor, and the selection after them
/// hands out the first of these servers again.
pub proof fn theorem_round_robin(t: RouteTable)
    requires
        t.wf(),
        t.running_count() > 0,
    ensures
        forall|j: nat|
            j < t.running_count() ==> (#[trigger] t.nth_pick(j) matches Some(e)
                && t.endpoints.contains(e) && t.health[e] == ServerStatus::Running),
        forall|i: nat, j: nat|
            i < j < t.running_count() ==> t.steps_to((#[trigger] t.nth_pick(i))->Some_0)
                < t.steps_to((#[trigger] t.nth_pick(j))->Some_0),
        forall|p: int| #[trigger]
            t.running_at(p) ==> exists|j: nat|
                j < t.running_count() && #[trigger] t.nth_pick(j) == Some(t.endpoints[p]),
        t.nth_pick(t.running_count()) == t.nth_pick(0),
{
    assert forall|j: nat| j < t.running_count() implies (#[trigger] t.nth_pick(j) matches Some(e)
        && t.endpoints.contains(e) && t.health[e] == ServerStatus::Running) by {
        lemma_pick_is_running(t, j);
    }
    assert forall|i: nat, j: nat| i < j < t.running_count() implies t.steps_to(
        (#[trigger] t.nth_pick(i))->Some_0,
    ) < t.steps_to((#[trigger] t.nth_pick(j))->Some_0) by {
        lemma_picks_in_rotation_order(t, i, j);
    }
    assert forall|p: int| #[trigger] t.running_at(p) implies exists|j: nat|
        j < t.running_count() && #[trigger] t.nth_pick(j) == Some(t.endpoints[p]) by {
        let j = lemma_running_server_is_picked(t, p);
    }
    lemma_rotation_repeats(t);
}

/// While every server is running and no status changes, the selections go
/// through the servers in registration order, starting at the cursor and
/// starting over after the last.
pub proof fn lemma_all_running_rotation(t: RouteTable, j: nat)
    requires
        t.wf(),
        t.endpoints.len() > 0,
        t.all_running(),
    ensures
        t.nth_pick(j) == Some(t.endpoints[t.slot(j as int)]),
        t.after(j + 1) == moved(t, (j + 1) as int),
    decreases j,
{
    let n = t.endpoints.len() as int;
    lemma_slot_in_range(t, j as int);
    if j == 0 {
        assert(moved(t, 0) == t) by {
            vstd::arithmetic::div_mod::lemma_small_mod(t.cursor, n as nat);
        }
        assert(t.after(0) == t);
    } else {
        lemma_all_running_rotation(t, (j - 1) as nat);
    }
    assert(t.after(j) == moved(t, j as int));
    lemma_pick_from(t, j as int, j as int);
    assert(t.after(j + 1) == t.after(j).advance());
}

/// While every server is running and no status changes, the selections
/// repeat with the number of servers as their period: after each server has
/// had its turn, the first one is handed out again.
pub proof fn lemma_all_running_period(t: RouteTable, j: nat)
    requires
        t.wf(),
        t.endpoints.len() > 0,
        t.all_running(),
    ensures
        t.running_count() == t.endpoints.len(),
        t.nth_pick(j + t.endpoints.len()) == t.nth_pick(j),
{
    lemma_all_running_rotation(t, j);
    lemma_all_running_rotation(t, j + t.endpoints.len());
    lemma_slot_periodic(t, j as int);
    lemma_all_running_count(t, t.endpoints.len() as int);
}

/// While every server is running, the first `m` positions hold `m` running
/// servers.
proof fn lemma_all_running_count(t: RouteTable, m: int)
    requires
        t.all_running(),
        0 <= m <= t.endpoints.len(),
    ensures
        t.running_among(m) == m,
    decreases m,
{
    if m > 0 {
        lemma_all_running_count(t, m - 1);
    }
}

} // verus!
