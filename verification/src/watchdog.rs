use vstd::prelude::*;

use std::collections::HashMap;

verus! {

broadcast use vstd::std_specs::hash::group_hash_axioms;

/// How long an elevator may work on one order before it is taken back, in milliseconds.
pub const ORDER_TIMEOUT_MS: u64 = 15000;

/// How long an elevator may stay idle before the master offers it work, in milliseconds.
pub const IDLE_TIMEOUT_MS: u64 = 3000;

/// The deadlines of `d` that have not passed at `now`.
pub open spec fn unexpired(d: Map<usize, u64>, now: u64) -> Map<usize, u64> {
    Map::new(|k: usize| d.contains_key(k) && now < d[k], |k: usize| d[k])
}

/// One deadline per elevator index; a deadline that passes is reported once.
pub struct WatchdogTimers {
    timeout_ms: u64,
    timers: HashMap<usize, u64>,
}

impl WatchdogTimers {
    /// The deadline of each watched elevator.
    pub closed spec fn deadlines_view(&self) -> Map<usize, u64> {
        self.timers@
    }

    /// How long after a reset a deadline passes.
    pub closed spec fn timeout_view(&self) -> u64 {
        self.timeout_ms
    }

    /// No elevator watched, with deadlines `timeout_ms` after each reset.
    pub fn new(timeout_ms: u64) -> (w: Self)
        ensures
            w.deadlines_view() == Map::<usize, u64>::empty(),
            w.timeout_view() == timeout_ms,
    {
        WatchdogTimers { timeout_ms, timers: HashMap::new() }
    }

    /// Elevator `id`'s deadline is set to a timeout after `now`.
    pub fn reset(&mut self, id: usize, now: u64)
        requires
            now + old(self).timeout_view() <= u64::MAX,
        ensures
            final(self).timeout_view() == old(self).timeout_view(),
            final(self).deadlines_view() == old(self).deadlines_view().insert(
                id,
                (now + old(self).timeout_view()) as u64,
            ),
            final(self).deadlines_view() == wd_step(
                old(self).deadlines_view(),
                old(self).timeout_view(),
                WatchdogInput::Reset(id, now),
            ),
    {
        self.timers.insert(id, now + self.timeout_ms);
    }

    /// Elevator `id` is no longer watched.
    pub fn remove(&mut self, id: usize)
        ensures
            final(self).timeout_view() == old(self).timeout_view(),
            final(self).deadlines_view() == old(self).deadlines_view().remove(id),
            final(self).deadlines_view() == wd_step(
                old(self).deadlines_view(),
                old(self).timeout_view(),
                WatchdogInput::Remove(id),
            ),
    {
        self.timers.remove(&id);
    }

    /// The elevators whose deadline passed at `now`, each once; they are
    /// no longer watched.
    pub fn expire(&mut self, now: u64) -> (r: Vec<usize>)
        ensures
            final(self).timeout_view() == old(self).timeout_view(),
            final(self).deadlines_view() == unexpired(old(self).deadlines_view(), now),
            final(self).deadlines_view() == wd_step(
                old(self).deadlines_view(),
                old(self).timeout_view(),
                WatchdogInput::Expire(now),
            ),
            r@.to_set() == wd_reported(old(self).deadlines_view(), WatchdogInput::Expire(now)),
            r@.no_duplicates(),
            forall|k: usize|
                #[trigger] r@.contains(k) <==> (old(self).deadlines_view().contains_key(k)
                    && old(self).deadlines_view()[k] <= now),
    {
        let ghost d0 = self.timers@;
        let mut keys: Vec<usize> = Vec::new();
        let key_iter = self.timers.keys();
        let ghost s = vstd::std_specs::iter::IteratorSpec::remaining(&key_iter);
        for x in it: key_iter
            invariant
                it.seq() == s,
                keys@ == s.unref().take(it.index() as int),
        {
            let ghost k = it.index() as int;
            proof {
                assert(s[k] == x);
            }
            keys.push(*x);
            proof {
                assert(s.unref().take(k + 1) =~= s.unref().take(k).push(*x));
            }
        }
        proof {
            assert(s.unref().take(s.len() as int) =~= s.unref());
            assert forall|a: int, b: int| 0 <= a < keys@.len() && 0 <= b < keys@.len() && a != b implies keys@[a]
                != keys@[b] by {
                assert(s[a] != s[b]);
            }
            assert forall|k: usize| d0.contains_key(k) <==> keys@.contains(k) by {
                assert(s.unref().to_set().contains(k) == keys@.contains(k));
            }
        }
        let mut out: Vec<usize> = Vec::new();
        let n = keys.len();
        let mut j: usize = 0;
        while j < n
            invariant
                n == keys@.len(),
                0 <= j <= n,
                self.timeout_ms == old(self).timeout_ms,
                keys@.no_duplicates(),
                forall|k: usize| d0.contains_key(k) <==> keys@.contains(k),
                forall|k: usize|
                    #![trigger self.timers@.contains_key(k)]
                    self.timers@.contains_key(k) <==> (d0.contains_key(k) && (keys@.take(j as int).contains(k)
                        ==> now < d0[k])),
                forall|k: usize| #![trigger self.timers@[k]] self.timers@.contains_key(k) ==> self.timers@[k] == d0[k],
                out@.no_duplicates(),
                forall|k: usize|
                    #[trigger] out@.contains(k) <==> (keys@.take(j as int).contains(k) && d0.contains_key(k)
                        && d0[k] <= now),
            decreases n - j,
        {
            let key = keys[j];
            proof {
                assert(keys@.take(j + 1) =~= keys@.take(j as int).push(key));
                assert forall|k: usize| #[trigger] keys@.take(j + 1).contains(k) <==> (keys@.take(
                    j as int,
                ).contains(k) || k == key) by {
                    if keys@.take(j as int).contains(k) {
                        let a = choose|a: int| 0 <= a < j && #[trigger] keys@.take(j as int)[a] == k;
                        assert(keys@.take(j + 1)[a] == k);
                    }
                    if k == key {
                        assert(keys@.take(j + 1)[j as int] == k);
                    }
                    if keys@.take(j + 1).contains(k) {
                        let a = choose|a: int| 0 <= a < j + 1 && #[trigger] keys@.take(j + 1)[a] == k;
                        if a < j {
                            assert(keys@.take(j as int)[a] == k);
                        }
                    }
                }
                assert(!keys@.take(j as int).contains(key)) by {
                    if keys@.take(j as int).contains(key) {
                        let a = choose|a: int| 0 <= a < j && #[trigger] keys@.take(j as int)[a] == key;
                        assert(keys@[a] == keys@[j as int]);
                    }
                }
                assert(keys@.contains(key));
            }
            match self.timers.get(&key) {
                Some(deadline) => {
                    if *deadline <= now {
                        self.timers.remove(&key);
                        let ghost before = out@;
                        out.push(key);
                        proof {
                            assert(!before.contains(key));
                            assert forall|a: int, b: int| 0 <= a < out@.len() && 0 <= b < out@.len() && a != b implies out@[a]
                                != out@[b] by {
                                if a < before.len() && b < before.len() {
                                    assert(out@[a] == before[a] && out@[b] == before[b]);
                                } else if a < before.len() {
                                    assert(before.contains(out@[a]));
                                } else {
                                    assert(before.contains(out@[b]));
                                }
                            }
                            assert forall|k: usize| #[trigger] out@.contains(k) <==> (before.contains(k) || k == key) by {
                                if before.contains(k) {
                                    let a = choose|a: int| 0 <= a < before.len() && before[a] == k;
                                    assert(out@[a] == k);
                                }
                                if k == key {
                                    assert(out@[before.len() as int] == k);
                                }
                                if out@.contains(k) {
                                    let a = choose|a: int| 0 <= a < out@.len() && out@[a] == k;
                                    if a < before.len() {
                                        assert(before[a] == k);
                                    }
                                }
                            }
                        }
                    }
                },
                None => {},
            }
            j = j + 1;
        }
        proof {
            assert(keys@.take(n as int) =~= keys@);
            assert(self.timers@ =~= unexpired(d0, now));
        }
        out
    }
}

/// A deadline that passed is reported once: an elevator whose deadline
/// passed at `t1` is no longer watched afterwards, so an expiry check at any
/// later time `t2` does not report it again unless it was reset.
pub proof fn lemma_expiry_reported_once(d: Map<usize, u64>, t1: u64, t2: u64, k: usize)
    requires
        d.contains_key(k),
        d[k] <= t1,
    ensures
        !unexpired(d, t1).contains_key(k),
        !(unexpired(d, t1).contains_key(k) && unexpired(d, t1)[k] <= t2),
{
}

/// What the watchdog of the order manager is told, with times in milliseconds.
pub enum WatchdogInput {
    /// `reset(id, now)`.
    Reset(usize, u64),
    /// `remove(id)`.
    Remove(usize),
    /// `expire(now)`.
    Expire(u64),
}

/// The deadlines after one input, as the methods leave them.
pub open spec fn wd_step(d: Map<usize, u64>, timeout: u64, e: WatchdogInput) -> Map<usize, u64> {
    match e {
        WatchdogInput::Reset(id, now) => d.insert(id, (now + timeout) as u64),
        WatchdogInput::Remove(id) => d.remove(id),
        WatchdogInput::Expire(now) => unexpired(d, now),
    }
}

/// The ids that an input reports as expired.
pub open spec fn wd_reported(d: Map<usize, u64>, e: WatchdogInput) -> Set<usize> {
    match e {
        WatchdogInput::Expire(now) => Set::new(|k: usize| d.contains_key(k) && d[k] <= now),
        _ => Set::empty(),
    }
}

/// The deadlines after a run of inputs, from `d`.
pub open spec fn wd_run(d: Map<usize, u64>, timeout: u64, inputs: Seq<WatchdogInput>) -> Map<usize, u64>
    decreases inputs.len(),
{
    if inputs.len() == 0 {
        d
    } else {
        wd_step(wd_run(d, timeout, inputs.drop_last()), timeout, inputs.last())
    }
}

/// Whether an input is a reset or a remove of `k`.
pub open spec fn touches(e: WatchdogInput, k: usize) -> bool {
    match e {
        WatchdogInput::Reset(id, _) => id == k,
        WatchdogInput::Remove(id) => id == k,
        WatchdogInput::Expire(_) => false,
    }
}

/// Whether input `j` resets `k` with deadline `dl`, no later input resets or
/// removes `k`, and every later expiry check came before `dl`.
pub open spec fn pending_since(inputs: Seq<WatchdogInput>, timeout: u64, k: usize, j: int, dl: u64) -> bool {
    &&& 0 <= j < inputs.len()
    &&& inputs[j] matches WatchdogInput::Reset(id, t) && id == k && dl == (t + timeout) as u64
    &&& forall|i: int| j < i < inputs.len() ==> !touches(#[trigger] inputs[i], k)
    &&& forall|i: int| j < i < inputs.len() ==> (#[trigger] inputs[i] matches WatchdogInput::Expire(now) ==> now < dl)
}

/// A watched id's deadline comes from its last reset, and no expiry check
/// since then reached it.
proof fn lemma_deadline_from_last_reset(timeout: u64, inputs: Seq<WatchdogInput>, k: usize)
    ensures
        wd_run(Map::empty(), timeout, inputs).contains_key(k) ==> exists|j: int|
            pending_since(inputs, timeout, k, j, #[trigger] wd_run(Map::empty(), timeout, inputs)[k]) && j >= 0,
    decreases inputs.len(),
{
    if inputs.len() > 0 {
        let prev = inputs.drop_last();
        let e = inputs.last();
        lemma_deadline_from_last_reset(timeout, prev, k);
        let d0 = wd_run(Map::empty(), timeout, prev);
        let d1 = wd_run(Map::empty(), timeout, inputs);
        if d1.contains_key(k) {
            let n = inputs.len() - 1;
            if touches(e, k) {
                match e {
                    WatchdogInput::Reset(id, t) => {
                        assert(pending_since(inputs, timeout, k, n, d1[k]));
                    },
                    _ => {},
                }
            } else {
                assert(d0.contains_key(k) && d1[k] == d0[k]);
                let j = choose|j: int| pending_since(prev, timeout, k, j, #[trigger] d0[k]) && j >= 0;
                assert forall|i: int| j < i < inputs.len() implies !touches(#[trigger] inputs[i], k) by {
                    if i < n {
                        assert(inputs[i] == prev[i]);
                    }
                }
                assert forall|i: int| j < i < inputs.len() implies (#[trigger] inputs[i] matches WatchdogInput::Expire(
                    now,
                ) ==> now < d1[k]) by {
                    if i < n {
                        assert(inputs[i] == prev[i]);
                    }
                }
                assert(inputs[j] == prev[j]);
                assert(pending_since(inputs, timeout, k, j, d1[k]));
            }
        }
    }
}

/// From a new watchdog, an id reported by an expiry check at `now` was last
/// reset (no remove since) at a time `t` with `t` plus the timeout no later
/// than `now`, and no expiry check since that reset reported it: an id
/// expires once per reset, never before its timeout, and never after a
/// remove.
pub proof fn lemma_watchdog_run(timeout: u64, inputs: Seq<WatchdogInput>, now: u64, k: usize)
    requires
        wd_reported(wd_run(Map::empty(), timeout, inputs), WatchdogInput::Expire(now)).contains(k),
    ensures
        exists|j: int|
            #![trigger inputs[j]]
            0 <= j < inputs.len() && (inputs[j] matches WatchdogInput::Reset(id, t) && id == k && (t
                + timeout) as u64 <= now) && (forall|i: int| j < i < inputs.len() ==> !touches(#[trigger] inputs[i], k))
                && (forall|i: int|
                j < i < inputs.len() ==> !wd_reported(wd_run(Map::empty(), timeout, inputs.take(i)), #[trigger] inputs[i]).contains(
                    k,
                )),
{
    let d = wd_run(Map::empty(), timeout, inputs);
    lemma_deadline_from_last_reset(timeout, inputs, k);
    let j = choose|j: int| pending_since(inputs, timeout, k, j, #[trigger] d[k]) && j >= 0;
    assert forall|i: int| j < i < inputs.len() implies !wd_reported(
        wd_run(Map::empty(), timeout, inputs.take(i)),
        #[trigger] inputs[i],
    ).contains(k) by {
        let di = wd_run(Map::empty(), timeout, inputs.take(i));
        match inputs[i] {
            WatchdogInput::Expire(t2) => {
                lemma_run_keeps_deadline(timeout, inputs, k, j, d[k], i);
            },
            _ => {},
        }
    }
}

/// While no input after `j` touches `k`, the deadline of `k` stays the one
/// that input `j` set, as long as expiry checks come before it.
proof fn lemma_run_keeps_deadline(timeout: u64, inputs: Seq<WatchdogInput>, k: usize, j: int, dl: u64, i: int)
    requires
        pending_since(inputs, timeout, k, j, dl),
        j < i <= inputs.len(),
    ensures
        wd_run(Map::empty(), timeout, inputs.take(i)).contains_key(k),
        wd_run(Map::empty(), timeout, inputs.take(i))[k] == dl,
    decreases i,
{
    let p = inputs.take(i);
    assert(p.drop_last() =~= inputs.take(i - 1));
    assert(p.last() == inputs[i - 1]);
    if i - 1 > j {
        lemma_run_keeps_deadline(timeout, inputs, k, j, dl, i - 1);
        assert(!touches(inputs[i - 1], k));
    }
}

} // verus!
