use vstd::prelude::*;

use std::collections::HashSet;

use crate::order::Role;

verus! {

broadcast use vstd::std_specs::hash::group_hash_axioms;

/// The elevator indices named by a list of ids.
pub open spec fn id_set(ids: Seq<u8>) -> Set<usize> {
    Set::new(|x: usize| exists|i: int| 0 <= i < ids.len() && ids[i] as usize == x)
}

/// Whether `x` is the smallest of `ids`.
pub open spec fn is_least(ids: Seq<u8>, x: u8) -> bool {
    ids.contains(x) && forall|i: int| 0 <= i < ids.len() ==> x <= #[trigger] ids[i]
}

/// Whether `x` is the smallest element of `s`.
pub open spec fn is_least_of_set(s: Set<usize>, x: usize) -> bool {
    s.contains(x) && forall|y: usize| #[trigger] s.contains(y) ==> x <= y
}

/// What changed in the set of alive elevators, and whether this node just
/// took over as master.
pub struct MembershipChange {
    pub newly_alive: Vec<usize>,
    pub lost: Vec<usize>,
    pub became_master: bool,
}

/// The alive elevators as this node last heard them, its role, and whether
/// it has heard from the network at all.
pub struct MembershipState {
    alive_elevs: HashSet<usize>,
    role: Role,
    network_ready: bool,
}

/// Whether `v` holds each element of `s` exactly once.
pub open spec fn lists_set(v: Seq<usize>, s: Set<usize>) -> bool {
    v.no_duplicates() && v.to_set() == s
}

/// Listing one more element that was not in the set lists the set with it added.
pub proof fn lemma_lists_set_push(v: Seq<usize>, s: Set<usize>, x: usize)
    requires
        lists_set(v, s),
        !s.contains(x),
    ensures
        lists_set(v.push(x), s.insert(x)),
{
    v.lemma_push_to_set_commute(x);
    assert forall|i: int, j: int| 0 <= i < v.push(x).len() && 0 <= j < v.push(x).len() && i != j implies v.push(x)[i]
        != v.push(x)[j] by {
        if i < v.len() && j < v.len() {
        } else if i < v.len() {
            assert(v.to_set().contains(v[i]));
        } else {
            assert(v.to_set().contains(v[j]));
        }
    }
}

/// The first `k + 1` elements of a sequence without repeats are its first `k`
/// and one more element that is not among them.
pub proof fn lemma_take_one_more(t: Seq<usize>, k: int)
    requires
        t.no_duplicates(),
        0 <= k < t.len(),
    ensures
        t.take(k + 1).to_set() == t.take(k).to_set().insert(t[k]),
        !t.take(k).to_set().contains(t[k]),
        t.take(k).no_duplicates(),
{
    assert(t.take(k + 1) =~= t.take(k).push(t[k]));
    t.take(k).lemma_push_to_set_commute(t[k]);
    if t.take(k).to_set().contains(t[k]) {
        let j = choose|j: int| 0 <= j < t.take(k).len() && t.take(k)[j] == t[k];
        assert(t[j] == t[k]);
    }
}

/// The elements of a set of indices in the order in which the set hands them out.
pub open spec fn set_listing(h: &HashSet<usize>) -> Seq<usize> {
    vstd::std_specs::hash::into_iter_hash_keys(vstd::std_specs::hash::spec_hash_keys_iter(h))
}

/// The test for an index outside `s`.
pub open spec fn not_in_set(s: Set<usize>) -> spec_fn(usize) -> bool {
    |x: usize| !s.contains(x)
}

/// The elements of `a` that are not in `b`, in the order `a` hands them out,
/// and the smallest element of `a`.
fn listed_outside(a: &HashSet<usize>, b: &HashSet<usize>) -> (r: (Vec<usize>, Option<usize>))
    ensures
        lists_set(set_listing(a), a@),
        r.0@ == set_listing(a).filter(not_in_set(b@)),
        lists_set(r.0@, a@.difference(b@)),
        r.1 is None <==> a@.is_empty(),
        r.1 matches Some(l) ==> is_least_of_set(a@, l),
{
    let mut out: Vec<usize> = Vec::new();
    let mut least: Option<usize> = None;
    let keys = a.iter();
    let ghost s = vstd::std_specs::iter::IteratorSpec::remaining(&keys);
    let ghost pred = not_in_set(b@);
    proof {
        assert forall|x: int, y: int| 0 <= x < s.len() && 0 <= y < s.len() && x != y implies s.unref()[x]
            != s.unref()[y] by {
            assert(s[x] != s[y]);
        }
        assert(s.unref().take(0).to_set() =~= Set::<usize>::empty());
        assert(out@.to_set() =~= Set::<usize>::empty());
        assert(s.unref().take(0).to_set().difference(b@) =~= Set::<usize>::empty());
        assert(s.unref().take(0).filter(pred) =~= Seq::<usize>::empty()) by {
            reveal(Seq::filter);
        }
    }
    for x in it: keys
        invariant
            it.seq() == s,
            pred == not_in_set(b@),
            s.unref().no_duplicates(),
            s.unref().to_set() == a@,
            out@ == s.unref().take(it.index() as int).filter(pred),
            lists_set(out@, s.unref().take(it.index() as int).to_set().difference(b@)),
            it.index() == 0 <==> least is None,
            least matches Some(l) ==> is_least_of_set(s.unref().take(it.index() as int).to_set(), l),
    {
        let v = *x;
        let ghost k = it.index() as int;
        let ghost t = s.unref();
        proof {
            assert(s[k] == x);
            assert(t[k] == v);
            lemma_take_one_more(t, k);
            assert(t.take(k + 1) =~= t.take(k).push(v));
            t.take(k).lemma_filter_push(v, pred);
        }
        let ghost out_before = out@;
        let ghost least_before = least;
        if !b.contains(&v) {
            out.push(v);
        }
        least = match least {
            None => Some(v),
            Some(l) => if v < l {
                Some(v)
            } else {
                Some(l)
            },
        };
        proof {
            let d_old = t.take(k).to_set().difference(b@);
            let d_new = t.take(k + 1).to_set().difference(b@);
            if !b@.contains(v) {
                assert(d_new =~= d_old.insert(v));
                lemma_lists_set_push(out_before, d_old, v);
            } else {
                assert(d_new =~= d_old);
            }
            if least_before is None {
                assert(t.take(k).to_set() =~= Set::<usize>::empty());
            }
        }
    }
    assert(s.unref().take(s.len() as int) =~= s.unref());
    (out, least)
}

impl MembershipState {
    /// The alive elevators.
    pub closed spec fn alive_view(&self) -> Set<usize> {
        self.alive_elevs@
    }

    /// The role of this node.
    pub closed spec fn role_view(&self) -> Role {
        self.role
    }

    /// Whether an alive list has been received.
    pub closed spec fn ready_view(&self) -> bool {
        self.network_ready
    }

    /// The alive elevators in the order in which this set hands them out.
    pub closed spec fn alive_listing(&self) -> Seq<usize> {
        set_listing(&self.alive_elevs)
    }

    /// The listing of the alive elevators holds each of them once.
    /// No elevator is known alive, the node is a slave and has not heard from the network.
    pub fn new() -> (m: Self)
        ensures
            m.alive_view() == Set::<usize>::empty(),
            m.role_view() == Role::Slave,
            !m.ready_view(),
    {
        Self { alive_elevs: HashSet::new(), role: Role::Slave, network_ready: false }
    }

    /// Takes in a new list of alive ids. The node becomes master exactly when
    /// its own id is the smallest alive id, and slave otherwise. It reports
    /// the elevators that joined and those that were lost, and whether it
    /// just took over as master: it is master now, and before no elevator
    /// was known alive or its own id was not the smallest of them.
    pub fn update_membership(&mut self, alive_ids: &[u8], local_id: u8) -> (c: MembershipChange)
        ensures
            final(self).alive_view() == id_set(alive_ids@),
            lists_set(final(self).alive_listing(), final(self).alive_view()),
            final(self).ready_view(),
            final(self).role_view() == (if is_least(alive_ids@, local_id) {
                Role::Master
            } else {
                Role::Slave
            }),
            lists_set(c.newly_alive@, id_set(alive_ids@).difference(old(self).alive_view())),
            lists_set(c.lost@, old(self).alive_view().difference(id_set(alive_ids@))),
            c.newly_alive@ == final(self).alive_listing().filter(not_in_set(old(self).alive_view())),
            c.lost@ == old(self).alive_listing().filter(not_in_set(id_set(alive_ids@))),
            c.became_master == (is_least(alive_ids@, local_id) && (old(self).alive_view().is_empty()
                || !is_least_of_set(old(self).alive_view(), local_id as usize))),
    {
        let ghost old_set = self.alive_elevs@;
        let mut new_set: HashSet<usize> = HashSet::new();
        let mut least: Option<u8> = None;
        let n = alive_ids.len();
        let mut i: usize = 0;
        assert(id_set(alive_ids@.take(0)) =~= Set::<usize>::empty());
        while i < n
            invariant
                n == alive_ids@.len(),
                0 <= i <= n,
                new_set@ == id_set(alive_ids@.take(i as int)),
                i == 0 <==> least is None,
                least matches Some(l) ==> is_least(alive_ids@.take(i as int), l),
            decreases n - i,
        {
            let id = alive_ids[i];
            let x = id as usize;
            let ghost prefix = alive_ids@.take(i as int);
            assert(alive_ids@.take(i + 1) =~= prefix.push(id));
            assert(id_set(alive_ids@.take(i + 1)) =~= id_set(prefix).insert(x)) by {
                assert forall|y: usize| id_set(prefix.push(id)).contains(y) implies id_set(prefix).insert(x).contains(
                    y,
                ) by {
                    let j = choose|j: int| 0 <= j < prefix.push(id).len() && prefix.push(id)[j] as usize == y;
                    if j < prefix.len() {
                        assert(prefix[j] as usize == y);
                    }
                }
                assert forall|y: usize| id_set(prefix).insert(x).contains(y) implies id_set(prefix.push(id)).contains(
                    y,
                ) by {
                    if y == x {
                        assert(prefix.push(id)[prefix.len() as int] as usize == y);
                    } else {
                        let j = choose|j: int| 0 <= j < prefix.len() && prefix[j] as usize == y;
                        assert(prefix.push(id)[j] as usize == y);
                    }
                }
            }
            new_set.insert(x);
            let ghost least_before = least;
            least = match least {
                None => Some(id),
                Some(l) => if id < l {
                    Some(id)
                } else {
                    Some(l)
                },
            };
            proof {
                let t = prefix.push(id);
                match least_before {
                    None => {
                        assert(prefix.len() == 0);
                        assert(t[0] == id);
                    },
                    Some(l) => {
                        assert forall|j: int| 0 <= j < t.len() implies least.unwrap() <= #[trigger] t[j] by {
                            if j < prefix.len() {
                                assert(t[j] == prefix[j]);
                            }
                        }
                        if id < l {
                            assert(t[prefix.len() as int] == id);
                        } else {
                            let j = choose|j: int| 0 <= j < prefix.len() && prefix[j] == l;
                            assert(t[j] == l);
                        }
                    },
                }
            }
            i = i + 1;
        }
        assert(alive_ids@.take(n as int) =~= alive_ids@);
        let (newly_alive, _) = listed_outside(&new_set, &self.alive_elevs);
        let (lost, old_least) = listed_outside(&self.alive_elevs, &new_set);
        let is_master = match least {
            Some(l) => l == local_id,
            None => false,
        };
        let became_master = if is_master {
            match old_least {
                None => true,
                Some(l) => l != local_id as usize,
            }
        } else {
            false
        };
        self.alive_elevs = new_set;
        self.network_ready = true;
        self.role = if is_master {
            Role::Master
        } else {
            Role::Slave
        };
        MembershipChange { newly_alive, lost, became_master }
    }

    /// Whether this node is the master.
    pub fn is_master(&self) -> (b: bool)
        ensures
            b == (self.role_view() == Role::Master),
    {
        matches!(self.role, Role::Master)
    }

    /// The role of this node.
    pub fn role(&self) -> (r: &Role)
        ensures
            *r == self.role_view(),
    {
        &self.role
    }

    /// Whether an alive list has been received.
    pub fn is_network_ready(&self) -> (b: bool)
        ensures
            b == self.ready_view(),
    {
        self.network_ready
    }

    /// The alive elevators.
    pub fn alive(&self) -> (s: &HashSet<usize>)
        ensures
            s@ == self.alive_view(),
    {
        &self.alive_elevs
    }

    /// The alive elevators, each once, in the order the set hands them out.
    pub fn alive_vec(&self) -> (v: Vec<usize>)
        ensures
            lists_set(v@, self.alive_view()),
            v@ == self.alive_listing(),
    {
        let mut v: Vec<usize> = Vec::new();
        let keys = self.alive_elevs.iter();
        let ghost s = vstd::std_specs::iter::IteratorSpec::remaining(&keys);
        proof {
            assert forall|a: int, b: int| 0 <= a < s.len() && 0 <= b < s.len() && a != b implies s.unref()[a]
                != s.unref()[b] by {
                assert(s[a] != s[b]);
            }
        }
        for x in it: keys
            invariant
                it.seq() == s,
                v@ == s.unref().take(it.index() as int),
        {
            v.push(*x);
            proof {
                assert(s.unref().take(it.index() + 1) =~= s.unref().take(it.index() as int).push(*x));
            }
        }
        assert(s.unref().take(s.len() as int) =~= s.unref());
        v
    }
}

/// Two nodes that take in the same alive list cannot both be master: only
/// the smallest id is.
pub proof fn lemma_one_master(ids: Seq<u8>, a: u8, b: u8)
    requires
        is_least(ids, a),
        is_least(ids, b),
    ensures
        a == b,
{
    let i = choose|i: int| 0 <= i < ids.len() && ids[i] == a;
    let j = choose|j: int| 0 <= j < ids.len() && ids[j] == b;
    assert(b <= ids[i]);
    assert(a <= ids[j]);
}

} // verus!
