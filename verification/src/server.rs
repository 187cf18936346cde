//! The connection supervisor's decision logic: the admission ceiling, the
//! live-connection counter, the process-wide connection registry, the
//! per-connection state machine, and the event manager's persistence
//! schedule.  The transport loop that accepts sockets and drives these
//! decisions lives outside the library.

use vstd::prelude::*;
use crate::kv::{assoc_map, unique_keys, lemma_assoc_contains, lemma_assoc_index,
    lemma_assoc_remove, lemma_assoc_push, lemma_unique_push};

verus! {

/// The count of live connections.
pub struct ConnectNumber {
    pub num: u16,
}

impl ConnectNumber {
    pub fn new() -> (r: ConnectNumber)
        ensures
            r.num == 0,
    {
        ConnectNumber { num: 0 }
    }

    pub fn add(&mut self)
        requires
            old(self).num < u16::MAX,
        ensures
            final(self).num == old(self).num + 1,
    {
        self.num += 1;
    }

    pub fn low(&mut self)
        requires
            old(self).num >= 1,
        ensures
            final(self).num == old(self).num - 1,
    {
        self.num -= 1;
    }

    pub fn get(&self) -> (r: u16)
        ensures
            r == self.num,
    {
        self.num
    }
}

/// Whether a new connection may be admitted under the configured ceiling.
pub open spec fn admission_spec(live: u16, max_connect_number: u16) -> bool {
    live < max_connect_number
}

/// The admission check: a connection is admitted only while the live count
/// is below the ceiling; a refused connection is dropped silently.
pub fn admission_check(count: &ConnectNumber, max_connect_number: u16) -> (r: bool)
    ensures
        r == admission_spec(count.num, max_connect_number),
{
    count.get() < max_connect_number
}

/// With an admission ceiling of one, two connection attempts against the
/// same counter let exactly one through: the first passes, and the count it takes
/// leaves the second refused.
pub proof fn lemma_single_admission(n0: u16)
    requires
        n0 == 0,
    ensures
        admission_spec(n0, 1),
        !admission_spec((n0 + 1) as u16, 1),
{
}

// ---- the per-connection state machine ----

/// The states a connection passes through.
#[derive(Debug, Clone, Copy, PartialEq, Eq, Structural)]
pub enum ConnState {
    Accepted,
    Admitted,
    Ready,
    Processing,
    Closed,
}

/// What can happen to a connection.
#[derive(Debug, Clone, Copy, PartialEq, Eq, Structural)]
pub enum ConnEvent {
    AdmissionChecked(bool),
    Registered,
    LineReceived,
    Replied,
    Disconnected,
}

/// The supervisor's transition relation: admission decides between entering
/// and silent closing; each request line is one Ready - Processing - Ready
/// cycle; socket end or error closes from either state.  Any other pairing
/// leaves the state as it is.
pub open spec fn conn_step_spec(s: ConnState, e: ConnEvent) -> ConnState {
    match (s, e) {
        (ConnState::Accepted, ConnEvent::AdmissionChecked(ok)) => if ok {
            ConnState::Admitted
        } else {
            ConnState::Closed
        },
        (ConnState::Admitted, ConnEvent::Registered) => ConnState::Ready,
        (ConnState::Ready, ConnEvent::LineReceived) => ConnState::Processing,
        (ConnState::Processing, ConnEvent::Replied) => ConnState::Ready,
        (ConnState::Ready, ConnEvent::Disconnected) => ConnState::Closed,
        (ConnState::Processing, ConnEvent::Disconnected) => ConnState::Closed,
        _ => s,
    }
}

pub fn connection_step(s: ConnState, e: ConnEvent) -> (r: ConnState)
    ensures
        r == conn_step_spec(s, e),
{
    match (s, e) {
        (ConnState::Accepted, ConnEvent::AdmissionChecked(ok)) => if ok {
            ConnState::Admitted
        } else {
            ConnState::Closed
        },
        (ConnState::Admitted, ConnEvent::Registered) => ConnState::Ready,
        (ConnState::Ready, ConnEvent::LineReceived) => ConnState::Processing,
        (ConnState::Processing, ConnEvent::Replied) => ConnState::Ready,
        (ConnState::Ready, ConnEvent::Disconnected) => ConnState::Closed,
        (ConnState::Processing, ConnEvent::Disconnected) => ConnState::Closed,
        _ => s,
    }
}

// ---- the connection registry ----

/// The views of the registry's entries.
pub open spec fn reg_views(s: Seq<(u128, String)>) -> Seq<(u128, Seq<char>)> {
    s.map_values(|e: (u128, String)| (e.0, e.1@))
}

/// Process-wide map from connection identifier to its selected group, used
/// for introspection.  An entry lives from connection start to connection
/// end and follows every SELECT.
pub struct ConnectionRegistry {
    pub entries: Vec<(u128, String)>,
}

impl ConnectionRegistry {
    pub open spec fn wf(self) -> bool {
        unique_keys(reg_views(self.entries@))
    }

    pub open spec fn view_map(self) -> Map<u128, Seq<char>> {
        assoc_map(reg_views(self.entries@))
    }

    pub fn new() -> (r: ConnectionRegistry)
        ensures
            r.wf(),
            r.view_map() == Map::<u128, Seq<char>>::empty(),
    {
        let r = ConnectionRegistry { entries: Vec::new() };
        proof {
            assert(reg_views(r.entries@) =~= Seq::<(u128, Seq<char>)>::empty());
            assert(r.view_map() =~= Map::<u128, Seq<char>>::empty());
        }
        r
    }

    fn find(&self, connid: u128) -> (r: Option<usize>)
        ensures
            match r {
                Some(i) => i < self.entries@.len() && self.entries@[i as int].0 == connid,
                None => forall|j: int|
                    0 <= j < self.entries@.len() ==> (#[trigger] self.entries@[j]).0 != connid,
            },
    {
        let mut i: usize = 0;
        let n = self.entries.len();
        while i < n
            invariant
                0 <= i <= n,
                n == self.entries@.len(),
                forall|j: int| 0 <= j < i ==> (#[trigger] self.entries@[j]).0 != connid,
            decreases n - i,
        {
            if self.entries[i].0 == connid {
                return Some(i);
            }
            i += 1;
        }
        None
    }

    /// Records (or updates) the group a connection has selected.
    pub fn db_stat_set(&mut self, connid: u128, db_name: String)
        requires
            old(self).wf(),
        ensures
            final(self).wf(),
            final(self).view_map() == old(self).view_map().insert(connid, db_name@),
    {
        let ghost s0 = reg_views(self.entries@);
        proof {
            lemma_assoc_contains(s0, connid);
        }
        match self.find(connid) {
            Some(i) => {
                proof {
                    lemma_assoc_remove(s0, i as int);
                }
                self.entries.remove(i);
                proof {
                    assert(reg_views(self.entries@) =~= s0.remove(i as int));
                    assert(forall|j: int|
                        0 <= j < reg_views(self.entries@).len() ==> (#[trigger] reg_views(
                            self.entries@,
                        )[j]).0 != connid);
                }
            },
            None => {
                proof {
                    assert(forall|j: int|
                        0 <= j < s0.len() ==> (#[trigger] s0[j]).0 != connid);
                    lemma_assoc_contains(s0, connid);
                    assert(assoc_map(s0).remove(connid) =~= assoc_map(s0));
                }
            },
        }
        let ghost s1 = reg_views(self.entries@);
        self.entries.push((connid, db_name));
        proof {
            assert(reg_views(self.entries@) =~= s1.push((connid, db_name@)));
            lemma_assoc_push(s1, connid, db_name@);
            lemma_unique_push(s1, connid, db_name@);
            assert(final(self).view_map() =~= old(self).view_map().insert(connid, db_name@));
        }
    }

    /// Drops a connection's entry when it closes.
    pub fn db_stat_remove(&mut self, connid: u128)
        requires
            old(self).wf(),
        ensures
            final(self).wf(),
            final(self).view_map() == old(self).view_map().remove(connid),
    {
        let ghost s0 = reg_views(self.entries@);
        match self.find(connid) {
            Some(i) => {
                proof {
                    lemma_assoc_remove(s0, i as int);
                }
                self.entries.remove(i);
                proof {
                    assert(reg_views(self.entries@) =~= s0.remove(i as int));
                }
            },
            None => {
                proof {
                    assert(forall|j: int|
                        0 <= j < s0.len() ==> (#[trigger] s0[j]).0 != connid);
                    lemma_assoc_contains(s0, connid);
                    assert(assoc_map(s0).remove(connid) =~= assoc_map(s0));
                }
            },
        }
    }

    /// Whether any live connection currently uses this group.
    pub fn db_stat_exist(&self, db_name: &str) -> (r: bool)
        requires
            self.wf(),
        ensures
            r == exists|id: u128|
                self.view_map().contains_key(id) && #[trigger] self.view_map()[id] == db_name@,
    {
        let ghost s0 = reg_views(self.entries@);
        let mut i: usize = 0;
        let n = self.entries.len();
        while i < n
            invariant
                self.wf(),
                0 <= i <= n,
                n == self.entries@.len(),
                s0 == reg_views(self.entries@),
                forall|j: int| 0 <= j < i ==> (#[trigger] self.entries@[j]).1@ != db_name@,
            decreases n - i,
        {
            if crate::value::str_eq(self.entries[i].1.as_str(), db_name) {
                proof {
                    lemma_assoc_index(s0, i as int);
                    let ghost id = s0[i as int].0;
                    assert(self.view_map().contains_key(id) && self.view_map()[id] == db_name@);
                }
                return true;
            }
            i += 1;
        }
        proof {
            assert forall|id: u128|
                self.view_map().contains_key(id) implies #[trigger] self.view_map()[id]
                != db_name@ by {
                lemma_assoc_contains(s0, id);
                let j = choose|j: int| 0 <= j < s0.len() && (#[trigger] s0[j]).0 == id;
                lemma_assoc_index(s0, j);
            }
        }
        false
    }
}

/// The handshake's single password comparison: a mismatch closes the
/// connection without further protocol interaction.
pub fn password_matches(given: &str, expected: &str) -> (r: bool)
    ensures
        r == (given@ == expected@),
{
    crate::value::str_eq(given, expected)
}

/// A fresh identifier for a newly accepted connection.
///
/// Relies on `uuid::Uuid::new_v4`, a randomly generated identifier, read out
/// through `Uuid::as_u128`.  Nothing is promised of the value.
#[verifier::external_body]
pub fn generate_connection_id() -> (r: u128) {
    uuid::Uuid::new_v4().as_u128()
}

// ---- the event manager's schedule ----

/// Drives periodic persistence against the database manager, independent of
/// client traffic.
pub struct EventManager {
    pub interval: i64,
    pub last_run: i64,
}

impl EventManager {
    pub fn init(interval: i64, now: i64) -> (r: EventManager)
        ensures
            r.interval == interval,
            r.last_run == now,
    {
        EventManager { interval, last_run: now }
    }

    /// Whether the periodic persistence sweep is due.
    pub fn due(&self, now: i64) -> (r: bool)
        requires
            0 <= self.last_run <= now,
            0 <= self.interval,
        ensures
            r == (now - self.last_run >= self.interval),
    {
        now - self.last_run >= self.interval
    }

    pub fn mark_ran(&mut self, now: i64)
        ensures
            final(self).interval == old(self).interval,
            final(self).last_run == now,
    {
        self.last_run = now;
    }
}

/// The names whose persist attempt failed, in sweep order.
pub open spec fn failed_names(s: Seq<(Seq<char>, bool)>) -> Seq<Seq<char>>
    decreases s.len(),
{
    if s.len() == 0 {
        Seq::empty()
    } else {
        failed_names(s.drop_last()) + if s.last().1 {
            Seq::empty()
        } else {
            seq![s.last().0]
        }
    }
}

/// Aggregates a persistence sweep: every group whose persist failed is
/// reported, and one bad group never hides another.
pub fn collect_persist_failures(results: &Vec<(String, bool)>) -> (r: Vec<String>)
    ensures
        r@.map_values(|s: String| s@) == failed_names(
            results@.map_values(|p: (String, bool)| (p.0@, p.1)),
        ),
{
    let ghost views = results@.map_values(|p: (String, bool)| (p.0@, p.1));
    let mut r: Vec<String> = Vec::new();
    let mut i: usize = 0;
    let n = results.len();
    proof {
        assert(views.take(0) =~= Seq::<(Seq<char>, bool)>::empty());
        assert(r@.map_values(|s: String| s@) =~= failed_names(views.take(0)));
    }
    while i < n
        invariant
            0 <= i <= n,
            n == results@.len(),
            views == results@.map_values(|p: (String, bool)| (p.0@, p.1)),
            r@.map_values(|s: String| s@) == failed_names(views.take(i as int)),
        decreases n - i,
    {
        let ghost old_r = r@;
        if !results[i].1 {
            r.push(results[i].0.clone());
            proof {
                assert(r@.map_values(|s: String| s@) =~= old_r.map_values(|s: String| s@).push(
                    views[i as int].0,
                ));
            }
        }
        proof {
            assert(views.take(i as int + 1).drop_last() =~= views.take(i as int));
            assert(views.take(i as int + 1).last() == views[i as int]);
            assert(r@.map_values(|s: String| s@) =~= failed_names(views.take(i as int + 1)));
        }
        i += 1;
    }
    proof {
        assert(views.take(n as int) =~= views);
    }
    r
}

} // verus!
