//! The registry of blocked clients: for each watched resource, the
//! connections waiting on it in the order in which they registered.

use vstd::prelude::*;
use crate::octets::{copy_bytes, same_bytes};

verus! {

/// The connection a registration is made for, and the worker that owns it.
#[derive(Clone, Copy, Debug, PartialEq, Eq)]
pub struct ConnectionRef {
    pub worker: u64,
    pub conn: u64,
}

/// One connection waiting on one resource.
#[derive(Clone, Copy, Debug, PartialEq, Eq)]
pub struct Waiter {
    /// The worker that owns the connection.
    pub worker: u64,
    /// The connection.
    pub conn: u64,
    /// When the connection registered.
    pub registered_at: u64,
    /// When the wait is given up, if ever.
    pub deadline: Option<u64>,
}

impl Waiter {
    /// Whether the wait is past its deadline at `now`.
    pub open spec fn spec_expired_at(self, now: u64) -> bool {
        self.deadline matches Some(d) && d <= now
    }

    /// Whether the wait is past its deadline at `now`.
    #[verifier::when_used_as_spec(spec_expired_at)]
    pub fn expired_at(self, now: u64) -> (b: bool)
        ensures
            b == self.spec_expired_at(now),
    {
        match self.deadline {
            Some(d) => d <= now,
            None => false,
        }
    }
}

/// What the registry holds: each watched resource with its waiters, first
/// registered first.
pub type Watches = Map<Seq<u8>, Seq<Waiter>>;

/// Whether `conn` is among `waiters`.
pub open spec fn has_conn(waiters: Seq<Waiter>, conn: u64) -> bool {
    exists|i: int| 0 <= i < waiters.len() && (#[trigger] waiters[i]).conn == conn
}

/// No connection occurs twice in `waiters`.
pub open spec fn distinct_conns(waiters: Seq<Waiter>) -> bool {
    forall|i: int, j: int|
        0 <= i < j < waiters.len() ==> (#[trigger] waiters[i]).conn != (#[trigger] waiters[j]).conn
}

/// A watched resource has at least one waiter, and no connection waits
/// twice on one resource.
pub open spec fn watches_wf(m: Watches) -> bool {
    forall|r: Seq<u8>| #[trigger]
        m.contains_key(r) ==> m[r].len() > 0 && distinct_conns(m[r])
}

/// The waiters on `r`, none if `r` is not watched.
pub open spec fn waiting(m: Watches, r: Seq<u8>) -> Seq<Waiter> {
    if m.contains_key(r) {
        m[r]
    } else {
        Seq::empty()
    }
}

/// `m` with the waiters on `r` replaced by `ws`; a resource left without
/// waiters is dropped.
pub open spec fn with_waiters(m: Watches, r: Seq<u8>, ws: Seq<Waiter>) -> Watches {
    if ws.len() == 0 {
        m.remove(r)
    } else {
        m.insert(r, ws)
    }
}

/// `m` after `w` registered on `r`: appended, unless its connection waits
/// on `r` already.
pub open spec fn registered(m: Watches, r: Seq<u8>, w: Waiter) -> Watches {
    if has_conn(waiting(m, r), w.conn) {
        m
    } else {
        m.insert(r, waiting(m, r).push(w))
    }
}

/// `m` after `w` registered on each of `resources`, in their order.
pub open spec fn registered_on(m: Watches, resources: Seq<Seq<u8>>, w: Waiter) -> Watches
    decreases resources.len(),
{
    if resources.len() == 0 {
        m
    } else {
        registered(registered_on(m, resources.drop_last(), w), resources.last(), w)
    }
}

/// `w` as it is once the connection `conn` belongs to `worker`.
pub open spec fn handed_over(w: Waiter, conn: u64, worker: u64) -> Waiter {
    if w.conn == conn {
        Waiter { worker, ..w }
    } else {
        w
    }
}

/// `m` after the connection `conn` was handed over to `worker`: wherever
/// the connection waits, it keeps its place, and its wake-up goes to its
/// new owner.
pub open spec fn moved(m: Watches, conn: u64, worker: u64) -> Watches {
    Map::new(
        |r: Seq<u8>| m.contains_key(r),
        |r: Seq<u8>| m[r].map_values(|w: Waiter| handed_over(w, conn, worker)),
    )
}

/// `m` after each of the connections `conns` was deregistered, in their
/// order.
pub open spec fn without_each(m: Watches, conns: Seq<u64>) -> Watches
    decreases conns.len(),
{
    if conns.len() == 0 {
        m
    } else {
        without(without_each(m, conns.drop_last()), of_conn(conns.last()))
    }
}

/// How many waiters on `r` a notification of `units` units wakes.
pub open spec fn wake_count(m: Watches, r: Seq<u8>, units: nat) -> nat {
    if units <= waiting(m, r).len() {
        units
    } else {
        waiting(m, r).len()
    }
}

/// The waiters on `r` that a notification of `units` units wakes, in the
/// order in which they are woken.
pub open spec fn woken(m: Watches, r: Seq<u8>, units: nat) -> Seq<Waiter> {
    waiting(m, r).take(wake_count(m, r, units) as int)
}

/// `m` after a notification of `units` units on `r`.
pub open spec fn notified(m: Watches, r: Seq<u8>, units: nat) -> Watches {
    with_waiters(m, r, waiting(m, r).skip(wake_count(m, r, units) as int))
}

/// `m` without the waiters that `gone` holds of.
pub open spec fn without(m: Watches, gone: spec_fn(Waiter) -> bool) -> Watches {
    Map::new(
        |r: Seq<u8>| m.contains_key(r) && m[r].filter(stays(gone)).len() > 0,
        |r: Seq<u8>| m[r].filter(stays(gone)),
    )
}

/// The negation of `gone`.
pub open spec fn stays(gone: spec_fn(Waiter) -> bool) -> spec_fn(Waiter) -> bool {
    |w: Waiter| !gone(w)
}

/// Holds of the waiters of connection `conn`.
pub open spec fn of_conn(conn: u64) -> spec_fn(Waiter) -> bool {
    |w: Waiter| w.conn == conn
}

/// Holds of the waiters that are past their deadline at `now`.
pub open spec fn overdue(now: u64) -> spec_fn(Waiter) -> bool {
    |w: Waiter| w.spec_expired_at(now)
}

/// The waiters of `m` that `gone` holds of: resource by resource in the
/// order that `order` gives, and for one resource first registered first.
pub open spec fn removed_in(m: Watches, order: Seq<Seq<u8>>, gone: spec_fn(Waiter) -> bool) -> Seq<
    Waiter,
>
    decreases order.len(),
{
    if order.len() == 0 {
        Seq::empty()
    } else {
        removed_in(m, order.drop_last(), gone) + waiting(m, order.last()).filter(gone)
    }
}

/// `order` names each watched resource of `m` once and nothing else.
pub open spec fn enumerates(order: Seq<Seq<u8>>, m: Watches) -> bool {
    &&& order.no_duplicates()
    &&& forall|r: Seq<u8>| order.contains(r) <==> m.contains_key(r)
}

/// One watched resource with its waiters.
pub struct WatchEntry {
    resource: Vec<u8>,
    waiters: Vec<Waiter>,
}

/// The registry of blocked clients.
pub struct WatcherRegistry {
    entries: Vec<WatchEntry>,
}

spec fn entries_wf(es: Seq<WatchEntry>) -> bool {
    &&& forall|i: int, j: int|
        0 <= i < j < es.len() ==> (#[trigger] es[i]).resource@ != (#[trigger] es[j]).resource@
    &&& forall|i: int|
        0 <= i < es.len() ==> (#[trigger] es[i]).waiters@.len() > 0 && distinct_conns(
            es[i].waiters@,
        )
}

spec fn listed(es: Seq<WatchEntry>, r: Seq<u8>) -> bool {
    exists|i: int| 0 <= i < es.len() && (#[trigger] es[i]).resource@ == r
}

spec fn place_of(es: Seq<WatchEntry>, r: Seq<u8>) -> int {
    choose|i: int| 0 <= i < es.len() && (#[trigger] es[i]).resource@ == r
}

spec fn entries_view(es: Seq<WatchEntry>) -> Watches {
    Map::new(|r: Seq<u8>| listed(es, r), |r: Seq<u8>| es[place_of(es, r)].waiters@)
}

spec fn resources_of(es: Seq<WatchEntry>) -> Seq<Seq<u8>> {
    Seq::new(es.len(), |i: int| es[i].resource@)
}

proof fn lemma_entry_in_view(es: Seq<WatchEntry>, i: int)
    requires
        entries_wf(es),
        0 <= i < es.len(),
    ensures
        entries_view(es).contains_key(es[i].resource@),
        entries_view(es)[es[i].resource@] == es[i].waiters@,
{
    let r = es[i].resource@;
    assert(listed(es, r));
    let p = place_of(es, r);
    assert(p == i) by {
        if p < i {
            assert(es[p].resource@ != es[i].resource@);
        } else if i < p {
            assert(es[i].resource@ != es[p].resource@);
        }
    }
}

proof fn lemma_view_wf(es: Seq<WatchEntry>)
    requires
        entries_wf(es),
    ensures
        watches_wf(entries_view(es)),
{
    let m = entries_view(es);
    assert forall|r: Seq<u8>| #[trigger] m.contains_key(r) implies m[r].len() > 0
        && distinct_conns(m[r]) by {
        let p = place_of(es, r);
        lemma_entry_in_view(es, p);
    }
}

proof fn lemma_view_update(es: Seq<WatchEntry>, i: int, e: WatchEntry)
    requires
        entries_wf(es),
        0 <= i < es.len(),
        e.resource@ == es[i].resource@,
        e.waiters@.len() > 0,
        distinct_conns(e.waiters@),
    ensures
        entries_wf(es.update(i, e)),
        entries_view(es.update(i, e)) == entries_view(es).insert(e.resource@, e.waiters@),
{
    let es2 = es.update(i, e);
    assert(entries_wf(es2)) by {
        assert forall|a: int, b: int| 0 <= a < b < es2.len() implies (#[trigger] es2[a]).resource@
            != (#[trigger] es2[b]).resource@ by {
            assert(es2[a].resource@ == es[a].resource@);
            assert(es2[b].resource@ == es[b].resource@);
        }
    }
    let m = entries_view(es);
    let m2 = entries_view(es2);
    assert forall|r: Seq<u8>| m2.contains_key(r) == m.insert(e.resource@, e.waiters@).contains_key(
        r,
    ) by {
        if listed(es2, r) {
            let p = place_of(es2, r);
            assert(es[p].resource@ == r);
        }
        if listed(es, r) {
            let p = place_of(es, r);
            assert(es2[p].resource@ == r);
        }
        assert(es2[i].resource@ == e.resource@);
    }
    assert forall|r: Seq<u8>| #[trigger] m2.contains_key(r) implies m2[r] == m.insert(
        e.resource@,
        e.waiters@,
    )[r] by {
        let p = place_of(es2, r);
        lemma_entry_in_view(es2, p);
        if p != i {
            assert(es[p].resource@ == r);
            lemma_entry_in_view(es, p);
            assert(es[p].resource@ != es[i].resource@) by {
                if p < i {
                } else {
                    assert(es[i].resource@ != es[p].resource@);
                }
            }
        }
    }
    assert(m2 =~= m.insert(e.resource@, e.waiters@));
}

proof fn lemma_view_remove(es: Seq<WatchEntry>, i: int)
    requires
        entries_wf(es),
        0 <= i < es.len(),
    ensures
        entries_wf(es.remove(i)),
        entries_view(es.remove(i)) == entries_view(es).remove(es[i].resource@),
{
    let es2 = es.remove(i);
    let gone = es[i].resource@;
    assert forall|a: int| 0 <= a < es2.len() implies #[trigger] es2[a] == es[if a < i {
        a
    } else {
        a + 1
    }] by {}
    assert(entries_wf(es2)) by {
        assert forall|a: int, b: int| 0 <= a < b < es2.len() implies (#[trigger] es2[a]).resource@
            != (#[trigger] es2[b]).resource@ by {
            let a1 = if a < i { a } else { a + 1 };
            let b1 = if b < i { b } else { b + 1 };
            assert(es[a1].resource@ != es[b1].resource@);
        }
        assert forall|a: int| 0 <= a < es2.len() implies (#[trigger] es2[a]).waiters@.len() > 0
            && distinct_conns(es2[a].waiters@) by {
            let a1 = if a < i { a } else { a + 1 };
            assert(es[a1].waiters@.len() > 0);
        }
    }
    let m = entries_view(es);
    let m2 = entries_view(es2);
    assert forall|r: Seq<u8>| m2.contains_key(r) == m.remove(gone).contains_key(r) by {
        if listed(es2, r) {
            let p = place_of(es2, r);
            let p1 = if p < i { p } else { p + 1 };
            assert(es[p1].resource@ == r);
            assert(r != gone) by {
                if p1 < i {
                    assert(es[p1].resource@ != es[i].resource@);
                } else {
                    assert(es[i].resource@ != es[p1].resource@);
                }
            }
        }
        if listed(es, r) && r != gone {
            let p = place_of(es, r);
            let p2 = if p < i { p } else { p - 1 };
            assert(es2[p2].resource@ == r);
        }
    }
    assert forall|r: Seq<u8>| #[trigger] m2.contains_key(r) implies m2[r] == m.remove(gone)[r] by {
        let p = place_of(es2, r);
        lemma_entry_in_view(es2, p);
        let p1 = if p < i { p } else { p + 1 };
        lemma_entry_in_view(es, p1);
    }
    assert(m2 =~= m.remove(gone));
}

proof fn lemma_view_push(es: Seq<WatchEntry>, e: WatchEntry)
    requires
        entries_wf(es),
        !entries_view(es).contains_key(e.resource@),
        e.waiters@.len() > 0,
        distinct_conns(e.waiters@),
    ensures
        entries_wf(es.push(e)),
        entries_view(es.push(e)) == entries_view(es).insert(e.resource@, e.waiters@),
{
    let es2 = es.push(e);
    assert(entries_wf(es2)) by {
        assert forall|a: int, b: int| 0 <= a < b < es2.len() implies (#[trigger] es2[a]).resource@
            != (#[trigger] es2[b]).resource@ by {
            if b == es.len() {
                assert(es[a].resource@ != e.resource@) by {
                    if es[a].resource@ == e.resource@ {
                        assert(listed(es, e.resource@));
                    }
                }
            } else {
                assert(es[a].resource@ != es[b].resource@);
            }
        }
    }
    let m = entries_view(es);
    let m2 = entries_view(es2);
    assert forall|r: Seq<u8>| m2.contains_key(r) == m.insert(e.resource@, e.waiters@).contains_key(
        r,
    ) by {
        if listed(es2, r) {
            let p = place_of(es2, r);
            if p < es.len() {
                assert(es[p].resource@ == r);
            }
        }
        if listed(es, r) {
            let p = place_of(es, r);
            assert(es2[p].resource@ == r);
        }
        assert(es2[es.len() as int].resource@ == e.resource@);
    }
    assert forall|r: Seq<u8>| #[trigger] m2.contains_key(r) implies m2[r] == m.insert(
        e.resource@,
        e.waiters@,
    )[r] by {
        let p = place_of(es2, r);
        lemma_entry_in_view(es2, p);
        if p < es.len() {
            assert(es[p].resource@ == r);
            lemma_entry_in_view(es, p);
        }
    }
    assert(m2 =~= m.insert(e.resource@, e.waiters@));
}

proof fn lemma_view_dom(es: Seq<WatchEntry>)
    requires
        entries_wf(es),
    ensures
        entries_view(es).dom().finite(),
        entries_view(es).dom().len() == es.len(),
    decreases es.len(),
{
    if es.len() == 0 {
        assert(entries_view(es).dom() =~= Set::<Seq<u8>>::empty());
    } else {
        let front = es.drop_last();
        let e = es.last();
        assert(entries_wf(front));
        lemma_view_dom(front);
        assert(!listed(front, e.resource@)) by {
            if listed(front, e.resource@) {
                let p = place_of(front, e.resource@);
                assert(es[p].resource@ != es[es.len() - 1].resource@);
            }
        }
        lemma_view_push(front, e);
        assert(front.push(e) =~= es);
        assert(entries_view(es).dom() =~= entries_view(front).dom().insert(e.resource@));
    }
}

proof fn lemma_view_moved(es: Seq<WatchEntry>, es2: Seq<WatchEntry>, conn: u64, worker: u64)
    requires
        entries_wf(es),
        es2.len() == es.len(),
        forall|j: int| 0 <= j < es.len() ==> (#[trigger] es2[j]).resource@ == es[j].resource@,
        forall|j: int|
            0 <= j < es.len() ==> (#[trigger] es2[j]).waiters@ == es[j].waiters@.map_values(
                |w: Waiter| handed_over(w, conn, worker),
            ),
    ensures
        entries_wf(es2),
        entries_view(es2) == moved(entries_view(es), conn, worker),
{
    let f = |w: Waiter| handed_over(w, conn, worker);
    assert(entries_wf(es2)) by {
        assert forall|a: int, b: int| 0 <= a < b < es2.len() implies (#[trigger] es2[a]).resource@
            != (#[trigger] es2[b]).resource@ by {
            assert(es[a].resource@ != es[b].resource@);
        }
        assert forall|a: int| 0 <= a < es2.len() implies (#[trigger] es2[a]).waiters@.len() > 0
            && distinct_conns(es2[a].waiters@) by {
            let ws = es[a].waiters@;
            let ws2 = es2[a].waiters@;
            assert(ws.len() > 0 && distinct_conns(ws));
            assert forall|x: int, y: int| 0 <= x < y < ws2.len() implies (#[trigger] ws2[x]).conn
                != (#[trigger] ws2[y]).conn by {
                assert(ws[x].conn != ws[y].conn);
                assert(ws2[x] == f(ws[x]));
                assert(ws2[y] == f(ws[y]));
            }
        }
    }
    let m = entries_view(es);
    let m2 = entries_view(es2);
    assert forall|r: Seq<u8>| m2.contains_key(r) == moved(m, conn, worker).contains_key(r) by {
        if listed(es2, r) {
            let p = place_of(es2, r);
            assert(es[p].resource@ == r);
        }
        if listed(es, r) {
            let p = place_of(es, r);
            assert(es2[p].resource@ == r);
        }
    }
    assert forall|r: Seq<u8>| #[trigger] m2.contains_key(r) implies m2[r] == moved(
        m,
        conn,
        worker,
    )[r] by {
        let p = place_of(es2, r);
        lemma_entry_in_view(es2, p);
        assert(es[p].resource@ == r);
        lemma_entry_in_view(es, p);
    }
    assert(m2 =~= moved(m, conn, worker));
}

impl View for WatcherRegistry {
    type V = Watches;

    closed spec fn view(&self) -> Watches {
        entries_view(self.entries@)
    }
}

impl WatcherRegistry {
    /// The invariant of the registry: no resource is listed twice, each
    /// listed resource has a waiter, and no connection waits twice on one
    /// resource.
    pub closed spec fn wf(&self) -> bool {
        entries_wf(self.entries@)
    }

    /// What the invariant means for the view.
    pub proof fn lemma_wf_view(&self)
        requires
            self.wf(),
        ensures
            watches_wf(self@),
    {
        lemma_view_wf(self.entries@);
    }

    /// A registry that watches nothing.
    pub fn new() -> (reg: WatcherRegistry)
        ensures
            reg.wf(),
            reg@ == Map::<Seq<u8>, Seq<Waiter>>::empty(),
    {
        let reg = WatcherRegistry { entries: Vec::new() };
        assert(reg@ =~= Map::<Seq<u8>, Seq<Waiter>>::empty());
        reg
    }

    fn find(&self, resource: &[u8]) -> (at: Option<usize>)
        requires
            self.wf(),
        ensures
            match at {
                Some(i) => i < self.entries.len() && self.entries[i as int].resource@ == resource@
                    && self@.contains_key(resource@) && self@[resource@]
                    == self.entries[i as int].waiters@,
                None => !self@.contains_key(resource@),
            },
    {
        let mut i: usize = 0;
        while i < self.entries.len()
            invariant
                self.wf(),
                i <= self.entries.len(),
                forall|j: int| 0 <= j < i ==> (#[trigger] self.entries[j]).resource@ != resource@,
            decreases self.entries.len() - i,
        {
            if same_bytes(self.entries[i].resource.as_slice(), resource) {
                proof {
                    lemma_entry_in_view(self.entries@, i as int);
                }
                return Some(i);
            }
            i += 1;
        }
        None
    }

    /// Registers `conn` as waiting on `resource` from `now` on, until
    /// `deadline` if there is one. A connection that waits on `resource`
    /// already keeps its place and its deadline. Returns whether the
    /// connection was added.
    pub fn register(
        &mut self,
        resource: &[u8],
        conn: ConnectionRef,
        now: u64,
        deadline: Option<u64>,
    ) -> (added: bool)
        requires
            old(self).wf(),
        ensures
            final(self).wf(),
            final(self)@ == registered(
                old(self)@,
                resource@,
                Waiter { worker: conn.worker, conn: conn.conn, registered_at: now, deadline },
            ),
            added == !has_conn(waiting(old(self)@, resource@), conn.conn),
    {
        let w = Waiter { worker: conn.worker, conn: conn.conn, registered_at: now, deadline };
        match self.find(resource) {
            Some(i) => {
                if holds_conn(&self.entries[i].waiters, conn.conn) {
                    false
                } else {
                    let ghost before = self.entries@;
                    let mut entry = self.entries.remove(i);
                    entry.waiters.push(w);
                    proof {
                        lemma_distinct_push(before[i as int].waiters@, w);
                        lemma_view_update(before, i as int, entry);
                    }
                    self.entries.insert(i, entry);
                    assert(self.entries@ =~= before.update(i as int, entry));
                    true
                }
            },
            None => {
                let mut waiters: Vec<Waiter> = Vec::new();
                waiters.push(w);
                let entry = WatchEntry { resource: copy_bytes(resource), waiters };
                proof {
                    lemma_view_push(self.entries@, entry);
                }
                self.entries.push(entry);
                true
            },
        }
    }

    /// Wakes the waiters on `resource` for a change of `units` units: the
    /// first `units` of them in the order in which they registered, or all
    /// if there are fewer. Those woken wait no longer; they are returned in
    /// the order in which they are woken, each to be sent to the worker
    /// that owns it.
    pub fn notify(&mut self, resource: &[u8], units: usize) -> (wakeups: Vec<Waiter>)
        requires
            old(self).wf(),
        ensures
            final(self).wf(),
            wakeups@ == woken(old(self)@, resource@, units as nat),
            final(self)@ == notified(old(self)@, resource@, units as nat),
    {
        match self.find(resource) {
            None => {
                assert(self@.remove(resource@) =~= self@);
                Vec::new()
            },
            Some(i) => {
                let ghost before = self.entries@;
                let ghost all = before[i as int].waiters@;
                let entry = self.entries.remove(i);
                let WatchEntry { resource: key, waiters: mut head } = entry;
                let n = head.len();
                let k: usize = if units < n { units } else { n };
                let rest = head.split_off(k);
                assert(head@ =~= all.take(k as int));
                assert(rest@ =~= all.skip(k as int));
                if rest.len() > 0 {
                    let kept = WatchEntry { resource: key, waiters: rest };
                    proof {
                        assert(distinct_conns(rest@)) by {
                            assert forall|a: int, b: int| 0 <= a < b < rest@.len() implies (
                            #[trigger] rest@[a]).conn != (#[trigger] rest@[b]).conn by {
                                assert(all[a + k].conn != all[b + k].conn);
                            }
                        }
                        lemma_view_update(before, i as int, kept);
                    }
                    self.entries.insert(i, kept);
                    assert(self.entries@ =~= before.update(i as int, kept));
                } else {
                    proof {
                        lemma_view_remove(before, i as int);
                    }
                }
                head
            },
        }
    }

    /// Wakes every waiter on `resource`, for a resource whose change all of
    /// them may consume.
    pub fn notify_all(&mut self, resource: &[u8]) -> (wakeups: Vec<Waiter>)
        requires
            old(self).wf(),
        ensures
            final(self).wf(),
            wakeups@ == waiting(old(self)@, resource@),
            final(self)@ == old(self)@.remove(resource@),
    {
        let wakeups = self.notify(resource, usize::MAX);
        proof {
            let all = waiting(old(self)@, resource@);
            assert(all.len() <= usize::MAX) by {
                if old(self)@.contains_key(resource@) {
                    let es = old(self).entries@;
                    let p = place_of(es, resource@);
                    assert(listed(es, resource@));
                    lemma_entry_in_view(es, p);
                    assert(es[p].waiters@.len() == es[p].waiters.len());
                }
            }
            assert(all.take(all.len() as int) =~= all);
        }
        wakeups
    }

    /// Registers `conn` as waiting on each of `resources`, as `register`
    /// does for one.
    pub fn register_all(
        &mut self,
        resources: &Vec<Vec<u8>>,
        conn: ConnectionRef,
        now: u64,
        deadline: Option<u64>,
    )
        requires
            old(self).wf(),
        ensures
            final(self).wf(),
            final(self)@ == registered_on(
                old(self)@,
                Seq::new(resources@.len(), |i: int| resources@[i]@),
                Waiter { worker: conn.worker, conn: conn.conn, registered_at: now, deadline },
            ),
    {
        let ghost all = Seq::new(resources@.len(), |i: int| resources@[i]@);
        let ghost w = Waiter { worker: conn.worker, conn: conn.conn, registered_at: now, deadline };
        let mut i: usize = 0;
        assert(all.take(0) =~= Seq::<Seq<u8>>::empty());
        while i < resources.len()
            invariant
                i <= resources.len(),
                self.wf(),
                all == Seq::new(resources@.len(), |i: int| resources@[i]@),
                w == (Waiter { worker: conn.worker, conn: conn.conn, registered_at: now, deadline }),
                self@ == registered_on(old(self)@, all.take(i as int), w),
            decreases resources.len() - i,
        {
            proof {
                assert(all.take(i + 1).drop_last() =~= all.take(i as int));
                assert(all.take(i + 1).last() == resources@[i as int]@);
            }
            self.register(resources[i].as_slice(), conn, now, deadline);
            i += 1;
        }
        assert(all.take(resources.len() as int) =~= all);
    }

    /// The waiters on `resource`, first registered first.
    pub fn waiters_on(&self, resource: &[u8]) -> (waiters: Vec<Waiter>)
        requires
            self.wf(),
        ensures
            waiters@ == waiting(self@, resource@),
    {
        match self.find(resource) {
            Some(i) => {
                let entry = &self.entries[i];
                let mut waiters: Vec<Waiter> = Vec::new();
                let mut k: usize = 0;
                while k < entry.waiters.len()
                    invariant
                        k <= entry.waiters.len(),
                        waiters@ == entry.waiters@.take(k as int),
                    decreases entry.waiters.len() - k,
                {
                    waiters.push(entry.waiters[k]);
                    assert(entry.waiters@.take(k + 1) =~= entry.waiters@.take(k as int).push(
                        entry.waiters@[k as int],
                    ));
                    k += 1;
                }
                assert(entry.waiters@.take(entry.waiters.len() as int) =~= entry.waiters@);
                waiters
            },
            None => Vec::new(),
        }
    }

    /// Whether `conn` waits on `resource`.
    pub fn is_waiting(&self, resource: &[u8], conn: u64) -> (b: bool)
        requires
            self.wf(),
        ensures
            b == has_conn(waiting(self@, resource@), conn),
    {
        match self.find(resource) {
            Some(i) => holds_conn(&self.entries[i].waiters, conn),
            None => false,
        }
    }

    /// How many resources are watched.
    pub fn watched(&self) -> (n: usize)
        requires
            self.wf(),
        ensures
            n == self@.dom().len(),
            self@.dom().finite(),
    {
        proof {
            lemma_view_dom(self.entries@);
        }
        self.entries.len()
    }

    /// Notes that the connection `conn` now belongs to `worker`: wherever
    /// it waits, its wake-up goes to that worker from now on.
    pub fn reassign(&mut self, conn: u64, worker: u64)
        requires
            old(self).wf(),
        ensures
            final(self).wf(),
            final(self)@ == moved(old(self)@, conn, worker),
    {
        let ghost es = self.entries@;
        let mut i: usize = 0;
        while i < self.entries.len()
            invariant
                i <= es.len(),
                self.entries@.len() == es.len(),
                entries_wf(es),
                forall|j: int|
                    0 <= j < es.len() ==> (#[trigger] self.entries@[j]).resource@
                        == es[j].resource@,
                forall|j: int|
                    0 <= j < i ==> (#[trigger] self.entries@[j]).waiters@ == es[j].waiters@.map_values(
                        |w: Waiter| handed_over(w, conn, worker),
                    ),
                forall|j: int| i <= j < es.len() ==> (#[trigger] self.entries@[j]) == es[j],
            decreases es.len() - i,
        {
            let entry = &mut self.entries[i];
            let ghost before = entry.waiters@;
            let mut k: usize = 0;
            while k < entry.waiters.len()
                invariant
                    k <= before.len(),
                    entry.waiters@.len() == before.len(),
                    entry.resource@ == es[i as int].resource@,
                    forall|j: int|
                        0 <= j < k ==> (#[trigger] entry.waiters@[j]) == handed_over(
                            before[j],
                            conn,
                            worker,
                        ),
                    forall|j: int| k <= j < before.len() ==> (#[trigger] entry.waiters@[j]) == before[j],
                decreases before.len() - k,
            {
                let w = entry.waiters[k];
                if w.conn == conn {
                    entry.waiters.set(k, Waiter { worker, ..w });
                }
                k += 1;
            }
            assert(entry.waiters@ =~= before.map_values(|w: Waiter| handed_over(w, conn, worker)));
            i += 1;
        }
        proof {
            lemma_view_moved(es, self.entries@, conn, worker);
        }
    }

    fn prune(&mut self, rule: &Removal) -> (removed: Vec<Waiter>)
        requires
            old(self).wf(),
        ensures
            final(self).wf(),
            final(self)@ == without(old(self)@, rule.gone()),
            exists|order: Seq<Seq<u8>>|
                enumerates(order, old(self)@) && removed@ == removed_in(
                    old(self)@,
                    order,
                    rule.gone(),
                ),
    {
        let ghost es = self.entries@;
        let ghost m = entries_view(es);
        let ghost order = resources_of(es);
        let ghost gone = rule.gone();
        let mut kept: Vec<WatchEntry> = Vec::new();
        let mut removed: Vec<Waiter> = Vec::new();
        let mut i: usize = 0;
        assert(entries_view(kept@) =~= without(entries_view(es.take(0)), gone));
        while i < self.entries.len()
            invariant
                self.entries@ == es,
                entries_wf(es),
                m == entries_view(es),
                order == resources_of(es),
                gone == rule.gone(),
                i <= es.len(),
                entries_wf(kept@),
                entries_view(kept@) == without(entries_view(es.take(i as int)), gone),
                removed@ == removed_in(m, order.take(i as int), gone),
            decreases es.len() - i,
        {
            let entry = &self.entries[i];
            let (stay, mut go) = split_waiters(&entry.waiters, rule);
            let ghost r = es[i as int].resource@;
            let ghost ws = es[i as int].waiters@;
            let ghost seen = es.take(i as int);
            proof {
                lemma_entry_in_view(es, i as int);
                assert(entries_wf(seen));
                assert(!listed(seen, r)) by {
                    if listed(seen, r) {
                        let p = place_of(seen, r);
                        assert(es[p].resource@ != es[i as int].resource@);
                    }
                }
                lemma_view_push(seen, es[i as int]);
                assert(es.take(i + 1) =~= seen.push(es[i as int]));
                assert(order.take(i + 1).drop_last() =~= order.take(i as int));
                assert(order.take(i + 1).last() == r);
                lemma_distinct_filter(ws, stays(gone));
            }
            removed.append(&mut go);
            if stay.len() > 0 {
                let next = WatchEntry { resource: copy_bytes(entry.resource.as_slice()), waiters: stay };
                proof {
                    lemma_view_push(kept@, next);
                }
                kept.push(next);
            }
            assert(entries_view(kept@) =~= without(entries_view(es.take(i + 1)), gone));
            i += 1;
        }
        proof {
            assert(es.take(es.len() as int) =~= es);
            assert(order.take(es.len() as int) =~= order);
            assert(enumerates(order, m)) by {
                assert forall|r: Seq<u8>| order.contains(r) <==> m.contains_key(r) by {
                    if order.contains(r) {
                        let p = choose|p: int| 0 <= p < order.len() && order[p] == r;
                        assert(es[p].resource@ == r);
                    }
                    if m.contains_key(r) {
                        let p = place_of(es, r);
                        assert(order[p] == r);
                    }
                }
            }
        }
        self.entries = kept;
        removed
    }

    /// Drops every registration of the connection `conn`, on whatever
    /// resource, and returns what was dropped.
    pub fn deregister_all(&mut self, conn: ConnectionRef) -> (dropped: Vec<Waiter>)
        requires
            old(self).wf(),
        ensures
            final(self).wf(),
            final(self)@ == without(old(self)@, of_conn(conn.conn)),
            exists|order: Seq<Seq<u8>>|
                enumerates(order, old(self)@) && dropped@ == removed_in(
                    old(self)@,
                    order,
                    of_conn(conn.conn),
                ),
    {
        self.prune(&Removal::Connection(conn.conn))
    }

    /// Drops the waiters that are past their deadline at `now` and returns
    /// them, each to be told to the worker that owns it as a timeout.
    pub fn expire_deadlines(&mut self, now: u64) -> (timeouts: Vec<Waiter>)
        requires
            old(self).wf(),
        ensures
            final(self).wf(),
            final(self)@ == without(old(self)@, overdue(now)),
            exists|order: Seq<Seq<u8>>|
                enumerates(order, old(self)@) && timeouts@ == removed_in(
                    old(self)@,
                    order,
                    overdue(now),
                ),
    {
        self.prune(&Removal::Overdue(now))
    }
}

/// Which waiters a sweep of the registry removes.
enum Removal {
    Connection(u64),
    Overdue(u64),
}

impl Removal {
    spec fn gone(&self) -> spec_fn(Waiter) -> bool {
        match self {
            Removal::Connection(conn) => of_conn(*conn),
            Removal::Overdue(now) => overdue(*now),
        }
    }

    fn removes(&self, w: &Waiter) -> (b: bool)
        ensures
            b == (self.gone())(*w),
    {
        match self {
            Removal::Connection(conn) => w.conn == *conn,
            Removal::Overdue(now) => w.expired_at(*now),
        }
    }
}

fn split_waiters(ws: &Vec<Waiter>, rule: &Removal) -> (parts: (Vec<Waiter>, Vec<Waiter>))
    ensures
        parts.0@ == ws@.filter(stays(rule.gone())),
        parts.1@ == ws@.filter(rule.gone()),
{
    let ghost gone = rule.gone();
    let mut stay: Vec<Waiter> = Vec::new();
    let mut go: Vec<Waiter> = Vec::new();
    let mut i: usize = 0;
    proof {
        reveal(Seq::filter);
    }
    assert(ws@.take(0).filter(gone) =~= Seq::empty());
    assert(ws@.take(0).filter(stays(gone)) =~= Seq::empty());
    while i < ws.len()
        invariant
            i <= ws.len(),
            gone == rule.gone(),
            stay@ == ws@.take(i as int).filter(stays(gone)),
            go@ == ws@.take(i as int).filter(gone),
        decreases ws.len() - i,
    {
        let w = ws[i];
        proof {
            assert(ws@.take(i + 1) =~= ws@.take(i as int).push(w));
            ws@.take(i as int).lemma_filter_push(w, gone);
            ws@.take(i as int).lemma_filter_push(w, stays(gone));
        }
        if rule.removes(&w) {
            go.push(w);
        } else {
            stay.push(w);
        }
        i += 1;
    }
    assert(ws@.take(ws.len() as int) =~= ws@);
    (stay, go)
}

proof fn lemma_distinct_filter(ws: Seq<Waiter>, keep: spec_fn(Waiter) -> bool)
    requires
        distinct_conns(ws),
    ensures
        distinct_conns(ws.filter(keep)),
    decreases ws.len(),
{
    reveal(Seq::filter);
    if ws.len() > 0 {
        let front = ws.drop_last();
        assert(distinct_conns(front)) by {
            assert forall|i: int, j: int| 0 <= i < j < front.len() implies (#[trigger] front[i]).conn
                != (#[trigger] front[j]).conn by {
                assert(ws[i].conn != ws[j].conn);
            }
        }
        lemma_distinct_filter(front, keep);
        if keep(ws.last()) {
            let kept = front.filter(keep);
            assert(!has_conn(kept, ws.last().conn)) by {
                if has_conn(kept, ws.last().conn) {
                    let i = choose|i: int| 0 <= i < kept.len() && (#[trigger] kept[i]).conn
                        == ws.last().conn;
                    assert(kept.contains(kept[i]));
                    front.lemma_filter_contains_rev(keep, kept[i]);
                    let j = choose|j: int| 0 <= j < front.len() && front[j] == kept[i];
                    assert(ws[j].conn != ws[ws.len() - 1].conn);
                }
            }
            lemma_distinct_push(kept, ws.last());
        }
    }
}

proof fn lemma_distinct_push(ws: Seq<Waiter>, w: Waiter)
    requires
        distinct_conns(ws),
        !has_conn(ws, w.conn),
    ensures
        distinct_conns(ws.push(w)),
{
    let ws2 = ws.push(w);
    assert forall|i: int, j: int| 0 <= i < j < ws2.len() implies (#[trigger] ws2[i]).conn != (
    #[trigger] ws2[j]).conn by {
        if j == ws.len() {
            assert(ws[i].conn != w.conn);
        } else {
            assert(ws[i].conn != ws[j].conn);
        }
    }
}

fn holds_conn(waiters: &Vec<Waiter>, conn: u64) -> (found: bool)
    ensures
        found == has_conn(waiters@, conn),
{
    let mut i: usize = 0;
    while i < waiters.len()
        invariant
            i <= waiters.len(),
            forall|j: int| 0 <= j < i ==> (#[trigger] waiters@[j]).conn != conn,
        decreases waiters.len() - i,
    {
        if waiters[i].conn == conn {
            return true;
        }
        i += 1;
    }
    false
}

/// What is left on a resource after a removal is what was there without
/// the removed, in the same order.
pub proof fn lemma_waiting_without(m: Watches, gone: spec_fn(Waiter) -> bool, r: Seq<u8>)
    ensures
        waiting(without(m, gone), r) == waiting(m, r).filter(stays(gone)),
{
    reveal(Seq::filter);
}

/// A registration joins the end of the queue: whoever waited on the
/// resource before keeps its place, ahead of the newcomer.
pub proof fn lemma_register_appends(m: Watches, r: Seq<u8>, w: Waiter)
    requires
        watches_wf(m),
        !has_conn(waiting(m, r), w.conn),
    ensures
        watches_wf(registered(m, r, w)),
        waiting(registered(m, r, w), r) == waiting(m, r).push(w),
        forall|other: Seq<u8>| other != r ==> waiting(registered(m, r, w), other) == waiting(m, other),
{
    lemma_distinct_push(waiting(m, r), w);
}

/// Wake-ups on one resource go out in the order of registration: of two
/// waiters, the one that registered later is never woken without the
/// earlier one, nor ahead of it, and waiters that are passed over keep
/// their order.
pub proof fn lemma_wakeups_are_fifo(m: Watches, r: Seq<u8>, units: nat, i: int, j: int)
    requires
        0 <= i < j < waiting(m, r).len(),
    ensures
        ({
            let before = waiting(m, r);
            let out = woken(m, r, units);
            let after = waiting(notified(m, r, units), r);
            let k = wake_count(m, r, units) as int;
            &&& out.len() == k
            &&& after.len() == before.len() - k
            &&& j < k ==> out[i] == before[i] && out[j] == before[j]
            &&& i < k <= j ==> out[i] == before[i] && after[j - k] == before[j]
            &&& k <= i ==> after[i - k] == before[i] && after[j - k] == before[j]
        }),
{
}

/// No wake-up is lost and none is given twice. A notification wakes as
/// many waiters as it has units, or all if there are fewer. Who waited on
/// the resource is either woken or waits on: the woken followed by those
/// who wait on are the waiters as they were. And nobody is both: a
/// connection that is woken does not wait on the resource any more, and it
/// is woken once.
pub proof fn lemma_no_wake_up_lost_or_doubled(m: Watches, r: Seq<u8>, units: nat)
    requires
        watches_wf(m),
    ensures
        ({
            let before = waiting(m, r);
            let out = woken(m, r, units);
            let after = waiting(notified(m, r, units), r);
            &&& out.len() == if units <= before.len() {
                units
            } else {
                before.len()
            }
            &&& out + after == before
            &&& distinct_conns(out)
            &&& forall|i: int| 0 <= i < out.len() ==> !has_conn(after, (#[trigger] out[i]).conn)
            &&& forall|other: Seq<u8>| other != r ==> waiting(notified(m, r, units), other) == waiting(m, other)
        }),
{
    let before = waiting(m, r);
    let out = woken(m, r, units);
    let after = waiting(notified(m, r, units), r);
    let k = wake_count(m, r, units) as int;
    assert(out + after =~= before);
    assert forall|i: int, j: int| 0 <= i < j < out.len() implies (#[trigger] out[i]).conn != (
    #[trigger] out[j]).conn by {
        assert(before[i].conn != before[j].conn);
    }
    assert forall|i: int| 0 <= i < out.len() implies !has_conn(after, (#[trigger] out[i]).conn) by {
        if has_conn(after, out[i].conn) {
            let j = choose|j: int| 0 <= j < after.len() && (#[trigger] after[j]).conn == out[i].conn;
            assert(after[j] == before[j + k]);
            assert(before[i].conn != before[j + k].conn);
        }
    }
}

/// Two connections that register one after the other on a resource are
/// woken in that order: a notification that wakes the second has woken the
/// first, at an earlier place.
pub proof fn lemma_first_come_first_woken(
    m: Watches,
    r: Seq<u8>,
    first: Waiter,
    second: Waiter,
    units: nat,
)
    requires
        watches_wf(m),
        first.conn != second.conn,
        !has_conn(waiting(m, r), first.conn),
        !has_conn(waiting(m, r), second.conn),
    ensures
        ({
            let queued = registered(registered(m, r, first), r, second);
            let out = woken(queued, r, units);
            let n = waiting(m, r).len() as int;
            &&& waiting(queued, r) == waiting(m, r).push(first).push(second)
            &&& out.contains(second) ==> out.len() == n + 2 && out[n] == first && out[n + 1]
                == second
        }),
{
    let m1 = registered(m, r, first);
    lemma_register_appends(m, r, first);
    let ws1 = waiting(m1, r);
    assert(!has_conn(ws1, second.conn)) by {
        if has_conn(ws1, second.conn) {
            let i = choose|i: int| 0 <= i < ws1.len() && (#[trigger] ws1[i]).conn == second.conn;
            if i < waiting(m, r).len() {
                assert(waiting(m, r)[i].conn == second.conn);
            }
        }
    }
    lemma_register_appends(m1, r, second);
    let queued = registered(m1, r, second);
    let ws = waiting(queued, r);
    let out = woken(queued, r, units);
    let n = waiting(m, r).len() as int;
    if out.contains(second) {
        let i = choose|i: int| 0 <= i < out.len() && out[i] == second;
        assert(ws[i] == second);
        assert(i == n + 1) by {
            if i < n + 1 {
                assert(ws[i].conn != ws[n + 1].conn);
            }
        }
    }
}

/// Registering a connection a second time on a resource on which it waits
/// changes nothing, whatever the second registration says.
pub proof fn lemma_register_is_idempotent(m: Watches, r: Seq<u8>, w: Waiter, again: Waiter)
    requires
        again.conn == w.conn,
    ensures
        registered(registered(m, r, w), r, again) == registered(m, r, w),
        woken(registered(registered(m, r, w), r, again), r, 1) == woken(registered(m, r, w), r, 1),
{
    let m1 = registered(m, r, w);
    if !has_conn(waiting(m, r), w.conn) {
        let ws = waiting(m, r).push(w);
        assert(ws[ws.len() - 1].conn == w.conn);
        assert(has_conn(ws, again.conn));
    }
}

/// Once a connection is deregistered it waits on nothing: no resource
/// lists it, and no notification wakes it.
pub proof fn lemma_deregistered_is_gone(m: Watches, conn: u64, r: Seq<u8>, units: nat)
    requires
        watches_wf(m),
    ensures
        ({
            let left = without(m, of_conn(conn));
            &&& watches_wf(left)
            &&& !has_conn(waiting(left, r), conn)
            &&& !has_conn(woken(left, r, units), conn)
            &&& !has_conn(waiting(notified(left, r, units), r), conn)
            &&& waiting(left, r) == waiting(m, r).filter(stays(of_conn(conn)))
        }),
{
    let gone = of_conn(conn);
    let left = without(m, gone);
    lemma_waiting_without(m, gone, r);
    let ws = waiting(left, r);
    assert forall|i: int| 0 <= i < ws.len() implies (#[trigger] ws[i]).conn != conn by {
        waiting(m, r).lemma_filter_pred(stays(gone), i);
    }
    assert(watches_wf(left)) by {
        assert forall|q: Seq<u8>| #[trigger] left.contains_key(q) implies left[q].len() > 0
            && distinct_conns(left[q]) by {
            lemma_distinct_filter(m[q], stays(gone));
        }
    }
    let out = woken(left, r, units);
    assert forall|i: int| 0 <= i < out.len() implies (#[trigger] out[i]).conn != conn by {
        assert(out[i] == ws[i]);
    }
    let rest = waiting(notified(left, r, units), r);
    let k = wake_count(left, r, units) as int;
    assert forall|i: int| 0 <= i < rest.len() implies (#[trigger] rest[i]).conn != conn by {
        assert(rest[i] == ws[i + k]);
    }
}


/// Whatever is done to the registry, a watched resource has a waiter and no
/// connection waits twice on one resource: registering, notifying,
/// removing and handing over all keep it so.
pub proof fn lemma_steps_keep_watches_wf(
    m: Watches,
    r: Seq<u8>,
    w: Waiter,
    units: nat,
    gone: spec_fn(Waiter) -> bool,
    conn: u64,
    worker: u64,
)
    requires
        watches_wf(m),
    ensures
        watches_wf(registered(m, r, w)),
        watches_wf(notified(m, r, units)),
        watches_wf(without(m, gone)),
        watches_wf(moved(m, conn, worker)),
{
    if !has_conn(waiting(m, r), w.conn) {
        lemma_register_appends(m, r, w);
    }
    assert(watches_wf(notified(m, r, units))) by {
        let all = waiting(m, r);
        let k = wake_count(m, r, units) as int;
        let rest = all.skip(k);
        assert forall|a: int, b: int| 0 <= a < b < rest.len() implies (#[trigger] rest[a]).conn != (
        #[trigger] rest[b]).conn by {
            assert(all[a + k].conn != all[b + k].conn);
        }
    }
    assert(watches_wf(without(m, gone))) by {
        let left = without(m, gone);
        assert forall|q: Seq<u8>| #[trigger] left.contains_key(q) implies left[q].len() > 0
            && distinct_conns(left[q]) by {
            lemma_distinct_filter(m[q], stays(gone));
        }
    }
    lemma_moved_keeps_order(m, conn, worker, r);
}

/// A removal brings no connection into a queue: who did not wait on a
/// resource before does not wait on it afterwards.
pub proof fn lemma_without_keeps_absent(
    m: Watches,
    gone: spec_fn(Waiter) -> bool,
    r: Seq<u8>,
    conn: u64,
)
    requires
        !has_conn(waiting(m, r), conn),
    ensures
        !has_conn(waiting(without(m, gone), r), conn),
{
    lemma_waiting_without(m, gone, r);
    let left = waiting(without(m, gone), r);
    if has_conn(left, conn) {
        let i = choose|i: int| 0 <= i < left.len() && (#[trigger] left[i]).conn == conn;
        assert(left.contains(left[i]));
        waiting(m, r).lemma_filter_contains_rev(stays(gone), left[i]);
        let j = choose|j: int| 0 <= j < waiting(m, r).len() && waiting(m, r)[j] == left[i];
        assert(waiting(m, r)[j].conn == conn);
    }
}

/// Once each of several connections is deregistered, none of them waits on
/// anything.
pub proof fn lemma_each_is_gone(m: Watches, conns: Seq<u64>, k: int, r: Seq<u8>)
    requires
        watches_wf(m),
        0 <= k < conns.len(),
    ensures
        watches_wf(without_each(m, conns)),
        !has_conn(waiting(without_each(m, conns), r), conns[k]),
    decreases conns.len(),
{
    let before = without_each(m, conns.drop_last());
    if conns.len() > 1 {
        lemma_each_is_gone(m, conns.drop_last(), 0, r);
    }
    assert(watches_wf(before));
    lemma_deregistered_is_gone(before, conns.last(), r, 0);
    if k < conns.len() - 1 {
        lemma_each_is_gone(m, conns.drop_last(), k, r);
        lemma_without_keeps_absent(before, of_conn(conns.last()), r, conns[k]);
    }
}

/// Handing a connection over to another worker changes neither who waits
/// on a resource nor in which order: only the owner named in the
/// connection's own registrations changes.
pub proof fn lemma_moved_keeps_order(m: Watches, conn: u64, worker: u64, r: Seq<u8>)
    requires
        watches_wf(m),
    ensures
        watches_wf(moved(m, conn, worker)),
        waiting(moved(m, conn, worker), r).len() == waiting(m, r).len(),
        forall|i: int|
            0 <= i < waiting(m, r).len() ==> (#[trigger] waiting(moved(m, conn, worker), r)[i])
                == handed_over(waiting(m, r)[i], conn, worker),
{
    let m2 = moved(m, conn, worker);
    assert forall|q: Seq<u8>| #[trigger] m2.contains_key(q) implies m2[q].len() > 0
        && distinct_conns(m2[q]) by {
        assert(m.contains_key(q));
        assert forall|x: int, y: int| 0 <= x < y < m2[q].len() implies (#[trigger] m2[q][x]).conn
            != (#[trigger] m2[q][y]).conn by {
            assert(m[q][x].conn != m[q][y].conn);
        }
    }
}


} // verus!
