use vstd::prelude::*;

use std::collections::{BTreeMap, HashMap};

verus! {

broadcast use {
    vstd::std_specs::btree::group_btree_axioms,
    vstd::std_specs::hash::group_hash_axioms,
    vstd::laws_cmp::group_laws_cmp,
};

/// How long a node counts as alive after its last ping, in milliseconds.
pub const PEER_TIMEOUT_MS: u64 = 3000;

/// How long a change that adds a node waits before the alive list goes out.
pub const JOIN_DEBOUNCE_MS: u64 = 100;

/// How long a change that drops a node waits before the alive list goes out.
pub const LEAVE_DEBOUNCE_MS: u64 = 500;

/// How long a node may stay away before the master restarts it.
pub const RESTART_DELAY_MS: u64 = 5000;

/// How often a node pings every other node, in milliseconds.
pub const HEARTBEAT_PERIOD_MS: u64 = 50;

/// How often the alive table is swept, in milliseconds.
pub const CLEANUP_PERIOD_MS: u64 = 50;

/// The datagram of a ping from node `my_id`: its id as one byte.
pub fn ping_payload(my_id: u8) -> (b: [u8; 1])
    ensures
        b@ == seq![my_id],
{
    let b = [my_id];
    assert(b@ =~= seq![my_id]);
    b
}

/// One heartbeat round of node `my_id`: a ping carrying its id to each of
/// `peers`, once each, in their order.
pub fn ping_round(my_id: u8, peers: &Vec<u8>) -> (r: Vec<(u8, [u8; 1])>)
    ensures
        r@.len() == peers@.len(),
        forall|i: int| 0 <= i < peers@.len() ==> #[trigger] r@[i].0 == peers@[i] && r@[i].1@ == seq![my_id],
{
    let mut out: Vec<(u8, [u8; 1])> = Vec::new();
    let mut i: usize = 0;
    while i < peers.len()
        invariant
            0 <= i <= peers@.len(),
            out@.len() == i,
            forall|k: int| 0 <= k < i ==> #[trigger] out@[k].0 == peers@[k] && out@[k].1@ == seq![my_id],
        decreases peers@.len() - i,
    {
        out.push((peers[i], ping_payload(my_id)));
        i = i + 1;
    }
    out
}

/// The node a received ping comes from: its first byte; none for an empty datagram.
pub fn ping_sender(datagram: &[u8]) -> (r: Option<u8>)
    ensures
        r == (if datagram@.len() > 0 {
            Some(datagram@[0])
        } else {
            None
        }),
{
    if datagram.len() > 0 {
        Some(datagram[0])
    } else {
        None
    }
}

/// Every node id, in increasing order.
pub open spec fn all_ids() -> Seq<u8> {
    Seq::new(256, |i: int| i as u8)
}

/// The test for an id that `m` holds.
pub open spec fn held_by(m: Map<u8, u64>) -> spec_fn(u8) -> bool {
    |id: u8| m.contains_key(id)
}

/// The ids that `m` holds, in increasing order.
pub open spec fn ids_of(m: Map<u8, u64>) -> Seq<u8> {
    all_ids().filter(held_by(m))
}

/// A deadline moved to `t` when that is sooner, or set to `t`.
pub open spec fn earliest(d: Option<u64>, t: u64) -> Option<u64> {
    match d {
        Some(e) => Some(if e <= t {
            e
        } else {
            t
        }),
        None => Some(t),
    }
}

/// `now - at`, or zero for a time from the future.
pub open spec fn since(now: u64, at: u64) -> u64 {
    if now >= at {
        (now - at) as u64
    } else {
        0
    }
}

/// The entries of `m` seen less than the timeout before `now`.
pub open spec fn still_alive(m: Map<u8, u64>, now: u64) -> Map<u8, u64> {
    Map::new(|id: u8| m.contains_key(id) && since(now, m[id]) < PEER_TIMEOUT_MS, |id: u8| m[id])
}

/// The ids that `m` holds, in increasing order.
fn map_ids(m: &BTreeMap<u8, u64>) -> (r: Vec<u8>)
    ensures
        r@ == ids_of(m@),
{
    let ghost pred = held_by(m@);
    let mut out: Vec<u8> = Vec::new();
    let mut i: usize = 0;
    proof {
        assert(all_ids().take(0).filter(pred) =~= Seq::<u8>::empty()) by {
            reveal(Seq::filter);
        }
    }
    while i < 256
        invariant
            pred == held_by(m@),
            0 <= i <= 256,
            out@ == all_ids().take(i as int).filter(pred),
        decreases 256 - i,
    {
        let id = i as u8;
        proof {
            assert(all_ids()[i as int] == id);
            assert(all_ids().take(i + 1) =~= all_ids().take(i as int).push(id));
            all_ids().take(i as int).lemma_filter_push(id, pred);
        }
        if m.contains_key(&id) {
            out.push(id);
        }
        i = i + 1;
    }
    proof {
        assert(all_ids().take(256) =~= all_ids());
    }
    out
}

/// Which nodes are alive, from the pings they send, and when the alive
/// list should next go out: changes are batched for a short while so that
/// a flapping link does not flood the other tasks.
pub struct OnlineTracker {
    local_id: u8,
    last_seen: BTreeMap<u8, u64>,
    deadline: Option<u64>,
}

impl OnlineTracker {
    /// When each alive node was last heard from.
    pub closed spec fn seen_view(&self) -> Map<u8, u64> {
        self.last_seen@
    }

    /// When the alive list should next go out, if a change is waiting.
    pub closed spec fn deadline_view(&self) -> Option<u64> {
        self.deadline
    }

    /// This node's id.
    pub closed spec fn local_view(&self) -> u8 {
        self.local_id
    }

    /// Nobody heard from yet and nothing waiting.
    pub fn new(local_id: u8) -> (t: Self)
        ensures
            t.seen_view() == Map::<u8, u64>::empty(),
            t.deadline_view() is None,
            t.local_view() == local_id,
    {
        let t = OnlineTracker { local_id, last_seen: BTreeMap::new(), deadline: None };
        assert(t.seen_view() =~= Map::<u8, u64>::empty());
        t
    }

    /// When the alive list should next go out, if a change is waiting.
    pub fn deadline(&self) -> (d: Option<u64>)
        ensures
            d == self.deadline_view(),
    {
        self.deadline
    }

    /// A ping from node `id` at `now`: it is seen now, and when it was not
    /// alive before, the alive list goes out a short while after.
    pub fn on_ping(&mut self, id: u8, now: u64)
        requires
            now + JOIN_DEBOUNCE_MS <= u64::MAX,
        ensures
            (final(self).seen_view(), final(self).deadline_view()) == online_step(
                (old(self).seen_view(), old(self).deadline_view()),
                old(self).local_view(),
                OnlineInput::Ping(id, now),
            ),
            final(self).local_view() == old(self).local_view(),
            final(self).seen_view() == old(self).seen_view().insert(id, now),
            final(self).deadline_view() == (if old(self).seen_view().contains_key(id) {
                old(self).deadline_view()
            } else {
                earliest(old(self).deadline_view(), (now + JOIN_DEBOUNCE_MS) as u64)
            }),
    {
        let was_new = !self.last_seen.contains_key(&id);
        self.last_seen.insert(id, now);
        if was_new {
            let t = now + JOIN_DEBOUNCE_MS;
            self.deadline = Some(
                match self.deadline {
                    Some(e) => if e <= t {
                        e
                    } else {
                        t
                    },
                    None => t,
                },
            );
        }
        assert(self.seen_view() =~= old(self).seen_view().insert(id, now));
    }

    /// The periodic sweep at `now`: this node counts as seen now, nodes not
    /// heard from within the timeout are dropped, and when the number of
    /// alive nodes changed the alive list goes out a while after.
    pub fn on_cleanup(&mut self, now: u64)
        requires
            now + LEAVE_DEBOUNCE_MS <= u64::MAX,
        ensures
            (final(self).seen_view(), final(self).deadline_view()) == online_step(
                (old(self).seen_view(), old(self).deadline_view()),
                old(self).local_view(),
                OnlineInput::Cleanup(now),
            ),
            final(self).local_view() == old(self).local_view(),
            final(self).seen_view() == still_alive(
                old(self).seen_view().insert(old(self).local_view(), now),
                now,
            ),
            final(self).deadline_view() == (if ids_of(final(self).seen_view()).len() != ids_of(
                old(self).seen_view(),
            ).len() {
                earliest(old(self).deadline_view(), (now + LEAVE_DEBOUNCE_MS) as u64)
            } else {
                old(self).deadline_view()
            }),
    {
        let before_len = map_ids(&self.last_seen).len();
        let mut table: BTreeMap<u8, u64> = BTreeMap::new();
        std::mem::swap(&mut table, &mut self.last_seen);
        table.insert(self.local_id, now);
        let ghost inserted = table@;
        let mut i: usize = 0;
        while i < 256
            invariant
                0 <= i <= 256,
                forall|k: u8|
                    #![trigger table@.contains_key(k)]
                    (k as int) < i ==> (table@.contains_key(k) == (inserted.contains_key(k) && since(
                        now,
                        inserted[k],
                    ) < PEER_TIMEOUT_MS)),
                forall|k: u8|
                    #![trigger table@.contains_key(k)]
                    (k as int) >= i ==> (table@.contains_key(k) == inserted.contains_key(k)),
                forall|k: u8| #[trigger] table@.contains_key(k) ==> table@[k] == inserted[k],
            decreases 256 - i,
        {
            let id = i as u8;
            let ghost before = table@;
            match table.get(&id) {
                Some(at) => {
                    if now.saturating_sub(*at) >= PEER_TIMEOUT_MS {
                        table.remove(&id);
                    }
                },
                None => {},
            }
            proof {
                assert forall|k: u8| #[trigger] table@.contains_key(k) implies table@[k] == inserted[k] by {
                    assert(before.contains_key(k));
                }
            }
            i = i + 1;
        }
        self.last_seen = table;
        assert(inserted =~= old(self).seen_view().insert(old(self).local_view(), now));
        assert(self.seen_view() =~= still_alive(inserted, now));
        let after_len = map_ids(&self.last_seen).len();
        if after_len != before_len {
            let t = now + LEAVE_DEBOUNCE_MS;
            self.deadline = Some(
                match self.deadline {
                    Some(e) => if e <= t {
                        e
                    } else {
                        t
                    },
                    None => t,
                },
            );
        }
    }

    /// At `now`, when a waiting change is due, the alive ids in increasing
    /// order, which then go out; nothing otherwise.
    pub fn take_due(&mut self, now: u64) -> (r: Option<Vec<u8>>)
        ensures
            (final(self).seen_view(), final(self).deadline_view()) == online_step(
                (old(self).seen_view(), old(self).deadline_view()),
                old(self).local_view(),
                OnlineInput::TakeDue(now),
            ),
            online_sent((old(self).seen_view(), old(self).deadline_view()), OnlineInput::TakeDue(now)) == match r {
                Some(v) => Some(v@),
                None => None::<Seq<u8>>,
            },
            final(self).local_view() == old(self).local_view(),
            final(self).seen_view() == old(self).seen_view(),
            match old(self).deadline_view() {
                Some(d) if d <= now => {
                    &&& r matches Some(v) && v@ == ids_of(old(self).seen_view())
                    &&& final(self).deadline_view() is None
                },
                _ => {
                    &&& r is None
                    &&& final(self).deadline_view() == old(self).deadline_view()
                },
            },
    {
        match self.deadline {
            Some(d) => {
                if d <= now {
                    self.deadline = None;
                    Some(map_ids(&self.last_seen))
                } else {
                    None
                }
            },
            None => None,
        }
    }
}

/// The restart deadlines of the nodes that are away, and the last alive list.
pub struct RestartTimers {
    local_id: u8,
    ids: Vec<u8>,
    deadlines: HashMap<u8, u64>,
    last_alive: Vec<u8>,
}

/// Whether `local` is no greater than any id of `alive`: this node is master.
pub open spec fn is_lowest(alive: Seq<u8>, local: u8) -> bool {
    forall|i: int| 0 <= i < alive.len() ==> local <= #[trigger] alive[i]
}

/// The deadlines after an alive list at `now`: a node of `ids` that is alive
/// loses its deadline; one that is away keeps its deadline or, if it had
/// none, gets one a restart delay after `now`.
pub open spec fn after_alive(d: Map<u8, u64>, ids: Seq<u8>, alive: Seq<u8>, now: u64) -> Map<u8, u64> {
    Map::new(
        |id: u8| if ids.contains(id) {
            !alive.contains(id)
        } else {
            d.contains_key(id)
        },
        |id: u8| if ids.contains(id) && !d.contains_key(id) {
            (now + RESTART_DELAY_MS) as u64
        } else {
            d[id]
        },
    )
}

/// The deadlines that have not passed at `now`.
pub open spec fn not_due(d: Map<u8, u64>, now: u64) -> Map<u8, u64> {
    Map::new(|id: u8| d.contains_key(id) && now < d[id], |id: u8| d[id])
}

/// The test for a deadline that passed at `now`, for another node than `local`.
pub open spec fn due_other(d: Map<u8, u64>, now: u64, local: u8) -> spec_fn(u8) -> bool {
    |id: u8| d.contains_key(id) && d[id] <= now && id != local
}

impl RestartTimers {
    /// The restart deadline of each node that is away.
    pub closed spec fn deadlines_view(&self) -> Map<u8, u64> {
        self.deadlines@
    }

    /// The last alive list.
    pub closed spec fn last_alive_view(&self) -> Seq<u8> {
        self.last_alive@
    }

    /// The nodes this node watches over.
    pub closed spec fn ids_view(&self) -> Seq<u8> {
        self.ids@
    }

    /// This node's id.
    pub closed spec fn local_view(&self) -> u8 {
        self.local_id
    }

    /// Node `local_id` watching over `ids`, with no deadlines and no alive list yet.
    pub fn new(local_id: u8, ids: Vec<u8>) -> (t: Self)
        ensures
            t.deadlines_view() == Map::<u8, u64>::empty(),
            t.last_alive_view() == Seq::<u8>::empty(),
            t.ids_view() == ids@,
            t.local_view() == local_id,
    {
        let t = RestartTimers { local_id, ids, deadlines: HashMap::new(), last_alive: Vec::new() };
        assert(t.deadlines_view() =~= Map::<u8, u64>::empty());
        t
    }

    /// A new alive list at `now`: it is remembered; each watched node that
    /// is alive loses its deadline, and each one that is away without a
    /// deadline gets one a restart delay from now.
    pub fn on_alive(&mut self, alive: &[u8], now: u64)
        requires
            now + RESTART_DELAY_MS <= u64::MAX,
        ensures
            (final(self).deadlines_view(), final(self).last_alive_view()) == restart_step(
                (old(self).deadlines_view(), old(self).last_alive_view()),
                old(self).ids_view(),
                RestartInput::Alive(alive@, now),
            ),
            final(self).local_view() == old(self).local_view(),
            final(self).ids_view() == old(self).ids_view(),
            final(self).last_alive_view() == alive@,
            final(self).deadlines_view() == after_alive(
                old(self).deadlines_view(),
                old(self).ids_view(),
                alive@,
                now,
            ),
    {
        let mut copy: Vec<u8> = Vec::new();
        let mut a: usize = 0;
        while a < alive.len()
            invariant
                0 <= a <= alive@.len(),
                copy@ == alive@.take(a as int),
            decreases alive@.len() - a,
        {
            copy.push(alive[a]);
            assert(alive@.take(a + 1) =~= alive@.take(a as int).push(alive@[a as int]));
            a = a + 1;
        }
        assert(alive@.take(alive@.len() as int) =~= alive@);
        let ghost d0 = self.deadlines_view();
        let ghost ids = self.ids@;
        let mut table: HashMap<u8, u64> = HashMap::new();
        std::mem::swap(&mut table, &mut self.deadlines);
        let mut i: usize = 0;
        while i < self.ids.len()
            invariant
                now + RESTART_DELAY_MS <= u64::MAX,
                ids == self.ids@,
                0 <= i <= ids.len(),
                table@ == after_alive(d0, ids.take(i as int), alive@, now),
            decreases ids.len() - i,
        {
            let id = self.ids[i];
            let ghost before = table@;
            if crate::network::slice_contains(alive, id) {
                table.remove(&id);
            } else if !table.contains_key(&id) {
                table.insert(id, now + RESTART_DELAY_MS);
            }
            proof {
                assert(ids.take(i + 1) =~= ids.take(i as int).push(id));
                assert forall|k: u8| #[trigger] ids.take(i + 1).contains(k) <==> (ids.take(i as int).contains(k)
                    || k == id) by {
                    if ids.take(i as int).contains(k) {
                        let c = choose|c: int| 0 <= c < i && #[trigger] ids.take(i as int)[c] == k;
                        assert(ids.take(i + 1)[c] == k);
                    }
                    if k == id {
                        assert(ids.take(i + 1)[i as int] == k);
                    }
                    if ids.take(i + 1).contains(k) {
                        let c = choose|c: int| 0 <= c < i + 1 && #[trigger] ids.take(i + 1)[c] == k;
                        if c < i {
                            assert(ids.take(i as int)[c] == k);
                        }
                    }
                }
                let goal = after_alive(d0, ids.take(i + 1), alive@, now);
                assert forall|k: u8| #[trigger] table@.contains_key(k) == goal.contains_key(k) && (goal.contains_key(k)
                    ==> table@[k] == goal[k]) by {
                    if k == id {
                        assert(ids.take(i + 1).contains(id));
                        if !alive@.contains(id) && !before.contains_key(id) {
                            assert(!ids.take(i as int).contains(id));
                        }
                    } else {
                        assert(ids.take(i + 1).contains(k) == ids.take(i as int).contains(k));
                    }
                }
                assert(table@ =~= goal);
            }
            i = i + 1;
        }
        proof {
            assert(ids.take(ids.len() as int) =~= ids);
        }
        self.deadlines = table;
        self.last_alive = copy;
    }

    /// The periodic check at `now`: the deadlines that passed are dropped,
    /// and when this node is master (no alive id is lower) the nodes other
    /// than itself among them are returned, in increasing order, to be
    /// restarted.
    pub fn on_tick(&mut self, now: u64) -> (r: Vec<u8>)
        ensures
            (final(self).deadlines_view(), final(self).last_alive_view()) == restart_step(
                (old(self).deadlines_view(), old(self).last_alive_view()),
                old(self).ids_view(),
                RestartInput::Tick(now),
            ),
            r@ == restarted(
                (old(self).deadlines_view(), old(self).last_alive_view()),
                old(self).local_view(),
                RestartInput::Tick(now),
            ),
            final(self).local_view() == old(self).local_view(),
            final(self).ids_view() == old(self).ids_view(),
            final(self).last_alive_view() == old(self).last_alive_view(),
            final(self).deadlines_view() == not_due(old(self).deadlines_view(), now),
            r@ == (if is_lowest(old(self).last_alive_view(), old(self).local_view()) {
                all_ids().filter(due_other(old(self).deadlines_view(), now, old(self).local_view()))
            } else {
                Seq::<u8>::empty()
            }),
    {
        let mut master = true;
        let mut a: usize = 0;
        while a < self.last_alive.len()
            invariant
                0 <= a <= self.last_alive@.len(),
                master == forall|k: int| 0 <= k < a ==> self.local_id <= #[trigger] self.last_alive@[k],
            decreases self.last_alive@.len() - a,
        {
            if self.last_alive[a] < self.local_id {
                master = false;
            }
            a = a + 1;
        }
        let ghost d0 = self.deadlines_view();
        let ghost pred = due_other(d0, now, self.local_id);
        let mut table: HashMap<u8, u64> = HashMap::new();
        std::mem::swap(&mut table, &mut self.deadlines);
        let mut out: Vec<u8> = Vec::new();
        let mut i: usize = 0;
        proof {
            assert(all_ids().take(0).filter(pred) =~= Seq::<u8>::empty()) by {
                reveal(Seq::filter);
            }
        }
        while i < 256
            invariant
                pred == due_other(d0, now, self.local_id),
                0 <= i <= 256,
                forall|k: u8|
                    #![trigger table@.contains_key(k)]
                    (k as int) < i ==> (table@.contains_key(k) == (d0.contains_key(k) && now < d0[k])),
                forall|k: u8|
                    #![trigger table@.contains_key(k)]
                    (k as int) >= i ==> (table@.contains_key(k) == d0.contains_key(k)),
                forall|k: u8| #[trigger] table@.contains_key(k) ==> table@[k] == d0[k],
                master ==> out@ == all_ids().take(i as int).filter(pred),
                !master ==> out@ == Seq::<u8>::empty(),
            decreases 256 - i,
        {
            let id = i as u8;
            let ghost before = table@;
            proof {
                assert(all_ids()[i as int] == id);
                assert(all_ids().take(i + 1) =~= all_ids().take(i as int).push(id));
                all_ids().take(i as int).lemma_filter_push(id, pred);
            }
            match table.get(&id) {
                Some(at) => {
                    if *at <= now {
                        table.remove(&id);
                        if master && id != self.local_id {
                            out.push(id);
                        }
                    }
                },
                None => {},
            }
            proof {
                assert forall|k: u8| #[trigger] table@.contains_key(k) implies table@[k] == d0[k] by {
                    assert(before.contains_key(k));
                }
            }
            i = i + 1;
        }
        proof {
            assert(all_ids().take(256) =~= all_ids());
        }
        self.deadlines = table;
        assert(self.deadlines_view() =~= not_due(d0, now));
        out
    }
}

/// Whether `s` is in strictly increasing order.
pub open spec fn ascending(s: Seq<u8>) -> bool {
    forall|i: int, j: int| 0 <= i < j < s.len() ==> #[trigger] s[i] < #[trigger] s[j]
}

/// The elements of a strictly increasing sequence that pass a test are in
/// strictly increasing order too.
proof fn lemma_filter_ascending(s: Seq<u8>, p: spec_fn(u8) -> bool)
    requires
        ascending(s),
    ensures
        ascending(s.filter(p)),
    decreases s.len(),
{
    broadcast use vstd::seq_lib::group_filter_ensures;

    if s.len() > 0 {
        let init = s.drop_last();
        let x = s.last();
        assert(s =~= init.push(x));
        assert(ascending(init));
        lemma_filter_ascending(init, p);
        init.lemma_filter_push(x, p);
        if p(x) {
            let f = init.filter(p);
            assert forall|i: int, j: int| 0 <= i < j < f.push(x).len() implies #[trigger] f.push(x)[i]
                < #[trigger] f.push(x)[j] by {
                if j == f.len() {
                    assert(f.contains(f[i]));
                    init.lemma_filter_contains_rev(p, f[i]);
                    let k = choose|k: int| 0 <= k < init.len() && init[k] == f[i];
                    assert(s[k] < s[s.len() - 1]);
                } else {
                    assert(f.push(x)[i] == f[i] && f.push(x)[j] == f[j]);
                }
            }
        }
    }
}

/// The alive lists go out in increasing order of id, so their first id is
/// the smallest: the master that the network layer takes (the first alive
/// id) is the master that the order manager takes (the smallest alive id).
pub proof fn lemma_master_choices_agree(m: Map<u8, u64>, my_id: u8)
    ensures
        ascending(ids_of(m)),
        (crate::peers::first_alive(ids_of(m)) == Some(my_id)) == crate::membership::is_least(
            ids_of(m),
            my_id,
        ),
{
    assert(ascending(all_ids())) by {
        assert forall|i: int, j: int| 0 <= i < j < all_ids().len() implies #[trigger] all_ids()[i]
            < #[trigger] all_ids()[j] by {
            assert(all_ids()[i] == i as u8 && all_ids()[j] == j as u8);
        }
    }
    lemma_filter_ascending(all_ids(), held_by(m));
    let l = ids_of(m);
    if l.len() > 0 && l[0] == my_id {
        assert(l.contains(my_id)) by {
            assert(l[0] == my_id);
        }
        assert forall|i: int| 0 <= i < l.len() implies my_id <= #[trigger] l[i] by {
            if i > 0 {
                assert(l[0] < l[i]);
            }
        }
    }
    if crate::membership::is_least(l, my_id) {
        let k = choose|k: int| 0 <= k < l.len() && l[k] == my_id;
        if k > 0 {
            assert(l[0] < l[k]);
            assert(my_id <= l[0]);
        }
    }
}

/// What the restart timers are told, with times in milliseconds.
pub enum RestartInput {
    /// An alive list at a time.
    Alive(Seq<u8>, u64),
    /// The periodic check at a time.
    Tick(u64),
}

/// The deadlines and the last alive list after one input, as `on_alive`
/// and `on_tick` leave them.
pub open spec fn restart_step(st: (Map<u8, u64>, Seq<u8>), ids: Seq<u8>, e: RestartInput) -> (Map<u8, u64>, Seq<u8>) {
    match e {
        RestartInput::Alive(l, now) => (after_alive(st.0, ids, l, now), l),
        RestartInput::Tick(now) => (not_due(st.0, now), st.1),
    }
}

/// The nodes that an input restarts, as `on_tick` returns them.
pub open spec fn restarted(st: (Map<u8, u64>, Seq<u8>), local: u8, e: RestartInput) -> Seq<u8> {
    match e {
        RestartInput::Tick(now) => if is_lowest(st.1, local) {
            all_ids().filter(due_other(st.0, now, local))
        } else {
            Seq::empty()
        },
        RestartInput::Alive(..) => Seq::empty(),
    }
}

/// The state after a run of inputs from new timers.
pub open spec fn restart_run(ids: Seq<u8>, inputs: Seq<RestartInput>) -> (Map<u8, u64>, Seq<u8>)
    decreases inputs.len(),
{
    if inputs.len() == 0 {
        (Map::empty(), Seq::empty())
    } else {
        restart_step(restart_run(ids, inputs.drop_last()), ids, inputs.last())
    }
}

/// Whether input `j` is an alive list without `id` at a time `t` with
/// deadline `dl == t + delay`, and no later alive list holds `id`.
pub open spec fn away_since(inputs: Seq<RestartInput>, id: u8, j: int, dl: u64) -> bool {
    &&& 0 <= j < inputs.len()
    &&& inputs[j] matches RestartInput::Alive(l, t) && !l.contains(id) && dl == (t + RESTART_DELAY_MS) as u64
    &&& forall|i: int| j < i < inputs.len() ==> (#[trigger] inputs[i] matches RestartInput::Alive(l2, _) ==> !l2.contains(id))
}

/// The last alive list of a run; empty when there is none.
pub open spec fn last_alive_of(inputs: Seq<RestartInput>) -> Seq<u8>
    decreases inputs.len(),
{
    if inputs.len() == 0 {
        Seq::empty()
    } else {
        match inputs.last() {
            RestartInput::Alive(l, _) => l,
            RestartInput::Tick(_) => last_alive_of(inputs.drop_last()),
        }
    }
}

/// A node with a restart deadline is watched, and its deadline is a delay
/// after an alive list that lacked it, with no alive list since holding it.
proof fn lemma_restart_deadlines(ids: Seq<u8>, inputs: Seq<RestartInput>, id: u8)
    ensures
        restart_run(ids, inputs).1 == last_alive_of(inputs),
        restart_run(ids, inputs).0.contains_key(id) ==> ids.contains(id) && exists|j: int|
            away_since(inputs, id, j, #[trigger] restart_run(ids, inputs).0[id]) && j >= 0,
    decreases inputs.len(),
{
    if inputs.len() > 0 {
        let prev = inputs.drop_last();
        let n = inputs.len() - 1;
        lemma_restart_deadlines(ids, prev, id);
        let d0 = restart_run(ids, prev).0;
        let d1 = restart_run(ids, inputs).0;
        if d1.contains_key(id) {
            let keep = d0.contains_key(id) && d1[id] == d0[id] && (inputs.last() matches RestartInput::Alive(l, _)
                ==> !l.contains(id));
            if keep {
                let j = choose|j: int| away_since(prev, id, j, #[trigger] d0[id]) && j >= 0;
                assert(inputs[j] == prev[j]);
                assert forall|i: int| j < i < inputs.len() implies (#[trigger] inputs[i] matches RestartInput::Alive(
                    l2,
                    _,
                ) ==> !l2.contains(id)) by {
                    if i < n {
                        assert(inputs[i] == prev[i]);
                    }
                }
                assert(away_since(inputs, id, j, d1[id]));
            } else {
                match inputs.last() {
                    RestartInput::Alive(l, t) => {
                        assert(away_since(inputs, id, n, d1[id]));
                    },
                    RestartInput::Tick(_) => {},
                }
            }
        }
    }
}

/// From new restart timers, a node restarted at a check at `now` is one of
/// the watched nodes and not this one, this node was master by the last
/// alive list, and the node was missing from an alive list that came at
/// least the restart delay before `now` and from every alive list since.
pub proof fn lemma_restart_run(ids: Seq<u8>, local: u8, inputs: Seq<RestartInput>, now: u64, id: u8)
    requires
        forall|i: int|
            0 <= i < inputs.len() ==> (#[trigger] inputs[i] matches RestartInput::Alive(_, t) ==> t
                + RESTART_DELAY_MS <= u64::MAX),
        restarted(restart_run(ids, inputs), local, RestartInput::Tick(now)).contains(id),
    ensures
        ids.contains(id),
        id != local,
        is_lowest(last_alive_of(inputs), local),
        exists|j: int|
            #![trigger inputs[j]]
            0 <= j < inputs.len() && (inputs[j] matches RestartInput::Alive(l, t) && !l.contains(id) && t
                + RESTART_DELAY_MS <= now) && forall|i: int|
                j < i < inputs.len() ==> (#[trigger] inputs[i] matches RestartInput::Alive(l2, _) ==> !l2.contains(
                    id,
                )),
{
    broadcast use vstd::seq_lib::group_filter_ensures;

    let st = restart_run(ids, inputs);
    lemma_restart_deadlines(ids, inputs, id);
    let f = all_ids().filter(due_other(st.0, now, local));
    assert(is_lowest(st.1, local));
    let k = choose|k: int| 0 <= k < f.len() && f[k] == id;
    assert(due_other(st.0, now, local)(f[k]));
    let j = choose|j: int| away_since(inputs, id, j, #[trigger] st.0[id]) && j >= 0;
    assert(inputs[j] matches RestartInput::Alive(_, t) ==> t + RESTART_DELAY_MS <= u64::MAX);
}

/// What the alive tracker is told, with times in milliseconds.
pub enum OnlineInput {
    /// A ping from a node at a time.
    Ping(u8, u64),
    /// The periodic sweep at a time.
    Cleanup(u64),
    /// A check at a time whether the alive list is due.
    TakeDue(u64),
}

/// When each node was last heard from, and when the alive list is due.
pub type OnlineState = (Map<u8, u64>, Option<u64>);

/// The tracker after one input, as `on_ping`, `on_cleanup` and `take_due`
/// leave it.
pub open spec fn online_step(st: OnlineState, local: u8, e: OnlineInput) -> OnlineState {
    match e {
        OnlineInput::Ping(id, now) => (
            st.0.insert(id, now),
            if st.0.contains_key(id) {
                st.1
            } else {
                earliest(st.1, (now + JOIN_DEBOUNCE_MS) as u64)
            },
        ),
        OnlineInput::Cleanup(now) => {
            let s1 = still_alive(st.0.insert(local, now), now);
            (
                s1,
                if ids_of(s1).len() != ids_of(st.0).len() {
                    earliest(st.1, (now + LEAVE_DEBOUNCE_MS) as u64)
                } else {
                    st.1
                },
            )
        },
        OnlineInput::TakeDue(now) => match st.1 {
            Some(d) => if d <= now {
                (st.0, None)
            } else {
                st
            },
            None => st,
        },
    }
}

/// The alive list that an input sends out, as `take_due` returns it.
pub open spec fn online_sent(st: OnlineState, e: OnlineInput) -> Option<Seq<u8>> {
    match e {
        OnlineInput::TakeDue(now) => match st.1 {
            Some(d) => if d <= now {
                Some(ids_of(st.0))
            } else {
                None
            },
            None => None,
        },
        _ => None,
    }
}

/// The tracker after a run of inputs, taken from the first.
pub open spec fn online_run(st: OnlineState, local: u8, inputs: Seq<OnlineInput>) -> OnlineState
    decreases inputs.len(),
{
    if inputs.len() == 0 {
        st
    } else {
        online_run(online_step(st, local, inputs[0]), local, inputs.drop_first())
    }
}

/// Whether, in a run where node `id` was last heard at `t`, each sweep comes
/// less than the timeout after the last ping of `id` before it.
pub open spec fn pinged_in_time(t: u64, id: u8, local: u8, inputs: Seq<OnlineInput>) -> bool
    decreases inputs.len(),
{
    if inputs.len() == 0 {
        true
    } else {
        match inputs[0] {
            OnlineInput::Ping(x, p) => if x == id {
                pinged_in_time(p, id, local, inputs.drop_first())
            } else {
                pinged_in_time(t, id, local, inputs.drop_first())
            },
            OnlineInput::Cleanup(now) => since(now, t) < PEER_TIMEOUT_MS && pinged_in_time(
                if id == local {
                    now
                } else {
                    t
                },
                id,
                local,
                inputs.drop_first(),
            ),
            OnlineInput::TakeDue(_) => pinged_in_time(t, id, local, inputs.drop_first()),
        }
    }
}

/// A node stays alive while its pings come in time: when it was last heard
/// at `t` and every sweep comes less than the timeout after its last ping,
/// it is still alive after the run.
pub proof fn lemma_online_stays(st: OnlineState, local: u8, id: u8, inputs: Seq<OnlineInput>)
    requires
        st.0.contains_key(id),
        pinged_in_time(st.0[id], id, local, inputs),
    ensures
        online_run(st, local, inputs).0.contains_key(id),
    decreases inputs.len(),
{
    if inputs.len() > 0 {
        lemma_online_stays(online_step(st, local, inputs[0]), local, id, inputs.drop_first());
    }
}

/// Whether an input is a ping from `id`.
pub open spec fn is_ping_of(e: OnlineInput, id: u8) -> bool {
    e matches OnlineInput::Ping(x, _) && x == id
}

/// A node other than this one that sends no ping stays away once it is away.
proof fn lemma_online_stays_away(st: OnlineState, local: u8, id: u8, inputs: Seq<OnlineInput>)
    requires
        id != local,
        !st.0.contains_key(id),
        forall|i: int| 0 <= i < inputs.len() ==> !is_ping_of(#[trigger] inputs[i], id),
    ensures
        !online_run(st, local, inputs).0.contains_key(id),
    decreases inputs.len(),
{
    if inputs.len() > 0 {
        assert(!is_ping_of(inputs[0], id));
        assert forall|i: int| 0 <= i < inputs.drop_first().len() implies !is_ping_of(
            #[trigger] inputs.drop_first()[i],
            id,
        ) by {
            assert(inputs.drop_first()[i] == inputs[i + 1]);
        }
        lemma_online_stays_away(online_step(st, local, inputs[0]), local, id, inputs.drop_first());
    }
}

/// A node other than this one that sends no ping during a run is dropped by
/// any sweep of the run that comes the timeout or more after it was last
/// heard, and stays dropped.
pub proof fn lemma_online_drops(st: OnlineState, local: u8, id: u8, inputs: Seq<OnlineInput>, k: int)
    requires
        id != local,
        forall|i: int| 0 <= i < inputs.len() ==> !is_ping_of(#[trigger] inputs[i], id),
        0 <= k < inputs.len(),
        inputs[k] matches OnlineInput::Cleanup(now) && (st.0.contains_key(id) ==> since(now, st.0[id])
            >= PEER_TIMEOUT_MS),
    ensures
        !online_run(st, local, inputs).0.contains_key(id),
    decreases inputs.len(),
{
    let rest = inputs.drop_first();
    let st1 = online_step(st, local, inputs[0]);
    assert(!is_ping_of(inputs[0], id));
    assert forall|i: int| 0 <= i < rest.len() implies !is_ping_of(#[trigger] rest[i], id) by {
        assert(rest[i] == inputs[i + 1]);
    }
    if k == 0 {
        assert(!st1.0.contains_key(id));
        lemma_online_stays_away(st1, local, id, rest);
    } else {
        assert(rest[k - 1] == inputs[k]);
        assert(st1.0.contains_key(id) ==> st.0.contains_key(id) && st1.0[id] == st.0[id]);
        lemma_online_drops(st1, local, id, rest, k - 1);
    }
}

/// Whether an input is a check for a due alive list.
pub open spec fn is_take(e: OnlineInput) -> bool {
    e is TakeDue
}

/// Until the alive list is taken, a waiting change is never put off: each
/// ping of a new node and each sweep that changes the number of alive nodes
/// can only bring the moment the list goes out nearer.
pub proof fn lemma_online_debounce_not_put_off(st: OnlineState, local: u8, inputs: Seq<OnlineInput>)
    requires
        forall|i: int| 0 <= i < inputs.len() ==> !is_take(#[trigger] inputs[i]),
    ensures
        st.1 matches Some(d0) ==> (online_run(st, local, inputs).1 matches Some(d1) && d1 <= d0),
    decreases inputs.len(),
{
    if inputs.len() > 0 {
        assert(!is_take(inputs[0]));
        assert forall|i: int| 0 <= i < inputs.drop_first().len() implies !is_take(#[trigger] inputs.drop_first()[i]) by {
            assert(inputs.drop_first()[i] == inputs[i + 1]);
        }
        let st1 = online_step(st, local, inputs[0]);
        lemma_online_debounce_not_put_off(st1, local, inputs.drop_first());
    }
}

/// Once a sweep happened this node counts as alive for good, and every
/// alive list that goes out is in increasing order of id.
pub proof fn lemma_online_lists(st: OnlineState, local: u8, inputs: Seq<OnlineInput>, e: OnlineInput)
    ensures
        (exists|i: int| 0 <= i < inputs.len() && #[trigger] inputs[i] is Cleanup) || st.0.contains_key(local)
            ==> online_run(st, local, inputs).0.contains_key(local),
        online_sent(online_run(st, local, inputs), e) matches Some(l) ==> ascending(l),
    decreases inputs.len(),
{
    let fin = online_run(st, local, inputs);
    lemma_master_choices_agree(fin.0, local);
    if inputs.len() > 0 {
        let rest = inputs.drop_first();
        let st1 = online_step(st, local, inputs[0]);
        lemma_online_lists(st1, local, rest, e);
        if exists|i: int| 0 <= i < inputs.len() && #[trigger] inputs[i] is Cleanup {
            let i = choose|i: int| 0 <= i < inputs.len() && #[trigger] inputs[i] is Cleanup;
            if i > 0 {
                assert(rest[i - 1] == inputs[i]);
            }
        }
    }
}

} // verus!
