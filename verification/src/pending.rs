use vstd::prelude::*;

use std::collections::{HashMap, HashSet};

use crate::msg::{Msg, MsgView};

verus! {

broadcast use vstd::std_specs::hash::group_hash_axioms;

/// What is pending for one sequence number: the peers whose acknowledgement
/// is still awaited, and the message.
pub type PendingEntry = (Set<u8>, MsgView);

/// The view of a message that may be absent.
pub open spec fn opt_msg_view(m: Option<Msg>) -> Option<MsgView> {
    match m {
        Some(m) => Some(m@),
        None => None,
    }
}

/// The pending table after `peer` acknowledged message `seq`, and the
/// message if that was the last awaited acknowledgement.
pub open spec fn resolved(p: Map<u32, PendingEntry>, seq: u32, peer: u8) -> (
    Map<u32, PendingEntry>,
    Option<MsgView>,
) {
    if !p.contains_key(seq) {
        (p, None)
    } else {
        let rest = p[seq].0.remove(peer);
        if rest.is_empty() {
            (p.remove(seq), Some(p[seq].1))
        } else {
            (p.insert(seq, (rest, p[seq].1)), None)
        }
    }
}

/// Whether an entry still awaits a peer of `alive`.
pub open spec fn awaits_alive(e: PendingEntry, alive: Set<u8>) -> bool {
    !e.0.intersect(alive).is_empty()
}

/// The pending table with every entry restricted to the alive peers, and
/// the entries that no longer await anyone dropped.
pub open spec fn restricted(p: Map<u32, PendingEntry>, alive: Set<u8>) -> Map<u32, PendingEntry> {
    Map::new(
        |k: u32| p.contains_key(k) && awaits_alive(p[k], alive),
        |k: u32| (p[k].0.intersect(alive), p[k].1),
    )
}

/// The messages that await acknowledgements, by sequence number.
pub struct PendingMap {
    entries: HashMap<u32, (HashSet<u8>, Msg)>,
}

impl View for PendingMap {
    type V = Map<u32, PendingEntry>;

    closed spec fn view(&self) -> Map<u32, PendingEntry> {
        Map::new(
            |k: u32| self.entries@.contains_key(k),
            |k: u32| (self.entries@[k].0@, self.entries@[k].1@),
        )
    }
}

/// The ids of `rem` that are in `alive`.
fn keep_alive(rem: &HashSet<u8>, alive: &HashSet<u8>) -> (r: HashSet<u8>)
    ensures
        r@ == rem@.intersect(alive@),
{
    let mut out: HashSet<u8> = HashSet::new();
    let ids = rem.iter();
    let ghost s = vstd::std_specs::iter::IteratorSpec::remaining(&ids);
    proof {
        assert(s.unref().take(0).to_set() =~= Set::<u8>::empty());
        assert(out@ =~= s.unref().take(0).to_set().intersect(alive@));
    }
    for x in it: ids
        invariant
            it.seq() == s,
            s.unref().to_set() == rem@,
            out@ == s.unref().take(it.index() as int).to_set().intersect(alive@),
    {
        let v = *x;
        let ghost k = it.index() as int;
        proof {
            assert(s[k] == x);
            assert(s.unref().take(k + 1) =~= s.unref().take(k).push(v));
            s.unref().take(k).lemma_push_to_set_commute(v);
        }
        if alive.contains(&v) {
            out.insert(v);
        }
        proof {
            assert(out@ =~= s.unref().take(k + 1).to_set().intersect(alive@));
        }
    }
    proof {
        assert(s.unref().take(s.len() as int) =~= s.unref());
    }
    out
}

impl PendingMap {
    /// Nothing pending.
    pub fn new() -> (p: Self)
        ensures
            p@ == Map::<u32, PendingEntry>::empty(),
    {
        let p = PendingMap { entries: HashMap::new() };
        assert(p@ =~= Map::<u32, PendingEntry>::empty());
        p
    }

    /// Records message `msg`, sent with number `seq`, as awaiting the
    /// acknowledgements of `expected`; an earlier entry for `seq` is replaced.
    pub fn insert(&mut self, seq: u32, expected: HashSet<u8>, msg: Msg)
        ensures
            final(self)@ == old(self)@.insert(seq, (expected@, msg@)),
    {
        self.entries.insert(seq, (expected, msg));
        assert(self@ =~= old(self)@.insert(seq, (expected@, msg@)));
    }

    /// Marks `peer` as having acknowledged message `seq`. When it was the
    /// last awaited peer, the entry leaves and its message is returned.
    pub fn resolve_peer(&mut self, seq: u32, peer: u8) -> (r: Option<Msg>)
        ensures
            (final(self)@, opt_msg_view(r)) == resolved(old(self)@, seq, peer),
    {
        match self.entries.remove(&seq) {
            None => {
                assert(self@ =~= old(self)@);
                None
            },
            Some((mut remaining, msg)) => {
                remaining.remove(&peer);
                if remaining.is_empty() {
                    assert(self@ =~= old(self)@.remove(seq));
                    Some(msg)
                } else {
                    let ghost rest = remaining@;
                    let ghost m = msg@;
                    self.entries.insert(seq, (remaining, msg));
                    assert(self@ =~= old(self)@.insert(seq, (rest, m)));
                    None
                }
            },
        }
    }

    /// Replaces `failed` by `new_peer` among the peers awaited for message
    /// `seq`; nothing changes when `seq` is not pending.
    pub fn retarget(&mut self, seq: u32, failed: u8, new_peer: u8)
        ensures
            final(self)@ == (if old(self)@.contains_key(seq) {
                old(self)@.insert(
                    seq,
                    (old(self)@[seq].0.remove(failed).insert(new_peer), old(self)@[seq].1),
                )
            } else {
                old(self)@
            }),
    {
        match self.entries.remove(&seq) {
            None => {
                assert(self@ =~= old(self)@);
            },
            Some((mut remaining, msg)) => {
                remaining.remove(&failed);
                remaining.insert(new_peer);
                let ghost rest = remaining@;
                let ghost m = msg@;
                self.entries.insert(seq, (remaining, msg));
                assert(self@ =~= old(self)@.insert(seq, (rest, m)));
            },
        }
    }

    /// Restricts every entry to the peers in `alive` and takes out the
    /// entries that then await nobody, returning their numbers and messages.
    pub fn remove_dead_elevators(&mut self, alive: &HashSet<u8>) -> (r: Vec<(u32, Msg)>)
        ensures
            final(self)@ == restricted(old(self)@, alive@),
            forall|i: int, j: int|
                0 <= i < j < r@.len() ==> #[trigger] r@[i].0 != #[trigger] r@[j].0,
            forall|i: int|
                #![trigger r@[i]]
                0 <= i < r@.len() ==> {
                    &&& old(self)@.contains_key(r@[i].0)
                    &&& !awaits_alive(old(self)@[r@[i].0], alive@)
                    &&& r@[i].1@ == old(self)@[r@[i].0].1
                },
            forall|k: u32|
                old(self)@.contains_key(k) && !awaits_alive(old(self)@[k], alive@) ==> exists|i: int|
                    0 <= i < r@.len() && #[trigger] r@[i].0 == k,
    {
        let ghost v0 = self@;
        let mut keys: Vec<u32> = Vec::new();
        let key_iter = self.entries.keys();
        let ghost s = vstd::std_specs::iter::IteratorSpec::remaining(&key_iter);
        for x in it: key_iter
            invariant
                it.seq() == s,
                keys@ == s.unref().take(it.index() as int),
        {
            let ghost k = it.index() as int;
            proof {
                assert(s[k] == x);
            }
            keys.push(*x);
            proof {
                assert(s.unref().take(k + 1) =~= s.unref().take(k).push(*x));
            }
        }
        proof {
            assert(s.unref().take(s.len() as int) =~= s.unref());
            assert forall|a: int, b: int| 0 <= a < keys@.len() && 0 <= b < keys@.len() && a != b implies keys@[a]
                != keys@[b] by {
                assert(s[a] != s[b]);
            }
            assert forall|k: u32| v0.contains_key(k) implies keys@.contains(k) by {
                assert(s.unref().to_set().contains(k));
            }
            assert forall|k: u32| keys@.contains(k) implies v0.contains_key(k) by {
                assert(s.unref().to_set().contains(k));
            }
        }
        let mut out: Vec<(u32, Msg)> = Vec::new();
        let n = keys.len();
        let mut j: usize = 0;
        while j < n
            invariant
                n == keys@.len(),
                0 <= j <= n,
                forall|a: int, b: int| 0 <= a < n && 0 <= b < n && a != b ==> keys@[a] != keys@[b],
                forall|k: u32| v0.contains_key(k) <==> keys@.contains(k),
                forall|k: u32|
                    #![trigger self@.contains_key(k)]
                    keys@.take(j as int).contains(k) ==> (self@.contains_key(k) <==> awaits_alive(
                        v0[k],
                        alive@,
                    )),
                forall|k: u32|
                    #![trigger self@.contains_key(k)]
                    !keys@.take(j as int).contains(k) ==> (self@.contains_key(k) <==> v0.contains_key(
                        k,
                    )),
                forall|k: u32|
                    #![trigger self@[k]]
                    self@.contains_key(k) && keys@.take(j as int).contains(k) ==> self@[k] == (
                        v0[k].0.intersect(alive@),
                        v0[k].1,
                    ),
                forall|k: u32|
                    #![trigger self@[k]]
                    self@.contains_key(k) && !keys@.take(j as int).contains(k) ==> self@[k] == v0[k],
                forall|a: int, b: int|
                    0 <= a < b < out@.len() ==> #[trigger] out@[a].0 != #[trigger] out@[b].0,
                forall|a: int|
                    #![trigger out@[a]]
                    0 <= a < out@.len() ==> {
                        &&& keys@.take(j as int).contains(out@[a].0)
                        &&& v0.contains_key(out@[a].0)
                        &&& !awaits_alive(v0[out@[a].0], alive@)
                        &&& out@[a].1@ == v0[out@[a].0].1
                    },
                forall|k: u32|
                    keys@.take(j as int).contains(k) && v0.contains_key(k) && !awaits_alive(v0[k], alive@)
                        ==> exists|a: int| 0 <= a < out@.len() && #[trigger] out@[a].0 == k,
            decreases n - j,
        {
            let key = keys[j];
            let ghost before = self@;
            let ghost out_before = out@;
            proof {
                assert(keys@.take(j + 1) =~= keys@.take(j as int).push(key));
                assert(!keys@.take(j as int).contains(key)) by {
                    if keys@.take(j as int).contains(key) {
                        let a = choose|a: int| 0 <= a < j && keys@.take(j as int)[a] == key;
                        assert(keys@[a] == keys@[j as int]);
                    }
                }
                assert(keys@.contains(key));
                assert(before.contains_key(key));
                assert forall|k: u32| #[trigger] keys@.take(j + 1).contains(k) <==> (keys@.take(
                    j as int,
                ).contains(k) || k == key) by {
                    if keys@.take(j as int).contains(k) {
                        let a = choose|a: int| 0 <= a < j && #[trigger] keys@.take(j as int)[a] == k;
                        assert(keys@.take(j + 1)[a] == k);
                    }
                    if k == key {
                        assert(keys@.take(j + 1)[j as int] == k);
                    }
                    if keys@.take(j + 1).contains(k) {
                        let a = choose|a: int| 0 <= a < j + 1 && #[trigger] keys@.take(j + 1)[a] == k;
                        if a < j {
                            assert(keys@.take(j as int)[a] == k);
                        }
                    }
                }
            }
            match self.entries.remove(&key) {
                Some((remaining, msg)) => {
                    proof {
                        assert(before[key] == v0[key]);
                        assert(v0[key] == (remaining@, msg@));
                    }
                    let kept = keep_alive(&remaining, alive);
                    if kept.is_empty() {
                        out.push((key, msg));
                        proof {
                            assert(self@ =~= before.remove(key));
                            assert forall|a: int, b: int| 0 <= a < b < out@.len() implies #[trigger] out@[a].0
                                != #[trigger] out@[b].0 by {
                                if b == out@.len() - 1 {
                                    assert(out@[a] == out_before[a]);
                                    assert(keys@.take(j as int).contains(out_before[a].0));
                                } else {
                                    assert(out@[a] == out_before[a]);
                                    assert(out@[b] == out_before[b]);
                                }
                            }
                            assert forall|k: u32|
                                keys@.take(j + 1).contains(k) && v0.contains_key(k) && !awaits_alive(
                                    v0[k],
                                    alive@,
                                ) implies exists|a: int| 0 <= a < out@.len() && #[trigger] out@[a].0 == k by {
                                if k == key {
                                    assert(out@[out@.len() - 1].0 == k);
                                } else {
                                    assert(keys@.take(j as int).contains(k));
                                    let a = choose|a: int| 0 <= a < out_before.len() && #[trigger] out_before[a].0 == k;
                                    assert(out@[a] == out_before[a]);
                                }
                            }
                            assert forall|a: int| #![trigger out@[a]] 0 <= a < out@.len() implies {
                                &&& keys@.take(j + 1).contains(out@[a].0)
                                &&& v0.contains_key(out@[a].0)
                                &&& !awaits_alive(v0[out@[a].0], alive@)
                                &&& out@[a].1@ == v0[out@[a].0].1
                            } by {
                                if a < out_before.len() {
                                    assert(out@[a] == out_before[a]);
                                    assert(keys@.take(j as int).contains(out_before[a].0));
                                    let c = choose|c: int| 0 <= c < j && keys@.take(j as int)[c] == out_before[a].0;
                                    assert(keys@.take(j + 1)[c] == out_before[a].0);
                                } else {
                                    assert(keys@.take(j + 1)[j as int] == key);
                                }
                            }
                        }
                    } else {
                        let ghost kv = kept@;
                        let ghost mv = msg@;
                        self.entries.insert(key, (kept, msg));
                        proof {
                            assert(self@ =~= before.insert(key, (kv, mv)));
                            assert forall|k: u32|
                                keys@.take(j + 1).contains(k) && v0.contains_key(k) && !awaits_alive(
                                    v0[k],
                                    alive@,
                                ) implies exists|a: int| 0 <= a < out@.len() && #[trigger] out@[a].0 == k by {
                                assert(k != key);
                                assert(keys@.take(j as int).contains(k));
                            }
                            assert forall|a: int| #![trigger out@[a]] 0 <= a < out@.len() implies {
                                &&& keys@.take(j + 1).contains(out@[a].0)
                                &&& v0.contains_key(out@[a].0)
                                &&& !awaits_alive(v0[out@[a].0], alive@)
                                &&& out@[a].1@ == v0[out@[a].0].1
                            } by {
                                let c = choose|c: int| 0 <= c < j && keys@.take(j as int)[c] == out@[a].0;
                                assert(keys@.take(j + 1)[c] == out@[a].0);
                            }
                        }
                    }
                },
                None => {},
            }
            j = j + 1;
        }
        proof {
            assert(keys@.take(n as int) =~= keys@);
            assert(self@ =~= restricted(v0, alive@));
        }
        out
    }
}

/// The pending table after the peers of `peers` acknowledged message `seq`
/// in turn, and what each acknowledgement completed.
pub open spec fn resolve_seq(p: Map<u32, PendingEntry>, seq: u32, peers: Seq<u8>) -> (
    Map<u32, PendingEntry>,
    Seq<Option<MsgView>>,
)
    decreases peers.len(),
{
    if peers.len() == 0 {
        (p, Seq::empty())
    } else {
        let r = resolved(p, seq, peers[0]);
        let rest = resolve_seq(r.0, seq, peers.drop_first());
        (rest.0, seq![r.1] + rest.1)
    }
}

/// A message completes exactly once, when the last awaited peer
/// acknowledges it: whatever the order of the acknowledgements of the
/// awaited peers, each but the last completes nothing, the last hands the
/// message back, and the message is then no longer pending.
pub proof fn lemma_completes_at_last_ack(p: Map<u32, PendingEntry>, seq: u32, peers: Seq<u8>)
    requires
        p.contains_key(seq),
        peers.len() > 0,
        peers.no_duplicates(),
        peers.to_set() == p[seq].0,
    ensures
        !resolve_seq(p, seq, peers).0.contains_key(seq),
        resolve_seq(p, seq, peers).1.len() == peers.len(),
        resolve_seq(p, seq, peers).1[peers.len() - 1] == Some(p[seq].1),
        forall|i: int| 0 <= i < peers.len() - 1 ==> #[trigger] resolve_seq(p, seq, peers).1[i] is None,
    decreases peers.len(),
{
    let first = peers[0];
    let rest = peers.drop_first();
    let r = resolved(p, seq, first);
    assert(peers.to_set().contains(first)) by {
        assert(peers[0] == first);
    }
    assert(p[seq].0.remove(first) =~= rest.to_set()) by {
        assert forall|x: u8| p[seq].0.remove(first).contains(x) <==> rest.to_set().contains(x) by {
            if rest.to_set().contains(x) {
                let k = choose|k: int| 0 <= k < rest.len() && rest[k] == x;
                assert(peers[k + 1] == x);
                assert(x != first);
                assert(peers.contains(x));
            }
            if p[seq].0.remove(first).contains(x) {
                assert(peers.contains(x));
                let k = choose|k: int| 0 <= k < peers.len() && peers[k] == x;
                assert(k != 0);
                assert(rest[k - 1] == x);
            }
        }
    }
    if rest.len() == 0 {
        assert(rest.to_set() =~= Set::<u8>::empty());
        assert(resolve_seq(r.0, seq, rest).1 =~= Seq::<Option<MsgView>>::empty());
        assert(resolve_seq(p, seq, peers).1 =~= seq![r.1]);
    } else {
        assert(rest.to_set().contains(rest[0]));
        assert(r.1 is None);
        assert(rest.no_duplicates()) by {
            assert forall|a: int, b: int| 0 <= a < rest.len() && 0 <= b < rest.len() && a != b implies rest[a]
                != rest[b] by {
                assert(rest[a] == peers[a + 1] && rest[b] == peers[b + 1]);
            }
        }
        lemma_completes_at_last_ack(r.0, seq, rest);
        let tail = resolve_seq(r.0, seq, rest).1;
        assert(resolve_seq(p, seq, peers).1 =~= seq![r.1] + tail);
        assert forall|i: int| 0 <= i < peers.len() - 1 implies #[trigger] resolve_seq(p, seq, peers).1[i] is None by {
            if i > 0 {
                assert(resolve_seq(p, seq, peers).1[i] == tail[i - 1]);
            }
        }
    }
}

} // verus!
