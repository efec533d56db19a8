use vstd::prelude::*;

use std::collections::{HashMap, HashSet};

use crate::address::{host_of, msg_port_of, peer_msg_addr, with_port, SITE};

verus! {

broadcast use vstd::std_specs::hash::group_hash_axioms;

/// The text of the address to which messages for peer `id` go.
pub open spec fn peer_msg_text(id: u8) -> Seq<char> {
    with_port(host_of(SITE, id), msg_port_of(id))
}

/// The test for an id other than `my_id`.
pub open spec fn not_id(my_id: u8) -> spec_fn(u8) -> bool {
    |x: u8| x != my_id
}

/// The ids of `alive` other than `my_id`, in their order.
pub open spec fn others(alive: Seq<u8>, my_id: u8) -> Seq<u8> {
    alive.filter(not_id(my_id))
}

/// The first id of an alive list, which names the master; none for an empty list.
pub open spec fn first_alive(alive: Seq<u8>) -> Option<u8> {
    if alive.len() > 0 {
        Some(alive[0])
    } else {
        None
    }
}

/// The other nodes of the cluster as the network layer knows them: who is
/// master, the ids of the peers, and where their messages go.
pub struct Peers {
    is_master: bool,
    master_id: Option<u8>,
    ids: Vec<u8>,
    addrs: HashMap<u8, String>,
}

impl Peers {
    /// Each peer, and only a peer, has an address, and it is the message
    /// address of that peer; a node is master only when there is one.
    #[verifier::type_invariant]
    closed spec fn addresses_match(&self) -> bool {
        &&& forall|k: u8| #[trigger] self.addrs@.contains_key(k) <==> self.ids@.contains(k)
        &&& forall|k: u8| #[trigger] self.addrs@.contains_key(k) ==> self.addrs@[k]@ == peer_msg_text(k)
        &&& self.is_master ==> self.master_id is Some
    }

    /// Whether this node is the master.
    pub closed spec fn master_view(&self) -> bool {
        self.is_master
    }

    /// The id of the master, if one is known.
    pub closed spec fn master_id_view(&self) -> Option<u8> {
        self.master_id
    }

    /// The ids of the peers, in the order of the last alive list.
    pub closed spec fn ids_view(&self) -> Seq<u8> {
        self.ids@
    }

    /// No peers, no master, and this node not master.
    pub fn new() -> (p: Self)
        ensures
            !p.master_view(),
            p.master_id_view() is None,
            p.ids_view() == Seq::<u8>::empty(),
    {
        Peers { is_master: false, master_id: None, ids: Vec::new(), addrs: HashMap::new() }
    }

    /// Takes in a new alive list: its first id is the master, this node is
    /// master when that is `my_id`, and the peers are the other ids in
    /// order. Returns the alive ids as a set.
    pub fn update(&mut self, alive: &[u8], my_id: u8) -> (r: HashSet<u8>)
        ensures
            r@ == alive@.to_set(),
            final(self).master_id_view() == first_alive(alive@),
            final(self).master_view() == (first_alive(alive@) == Some(my_id)),
            final(self).ids_view() == others(alive@, my_id),
    {
        let mut alive_set: HashSet<u8> = HashSet::new();
        let mut ids: Vec<u8> = Vec::new();
        let mut addrs: HashMap<u8, String> = HashMap::new();
        let ghost pred = not_id(my_id);
        let mut i: usize = 0;
        proof {
            assert(alive@.take(0) =~= Seq::<u8>::empty());
            assert(alive@.take(0).to_set() =~= Set::<u8>::empty());
            assert(alive@.take(0).filter(pred) =~= Seq::<u8>::empty()) by {
                reveal(Seq::filter);
            }
        }
        while i < alive.len()
            invariant
                0 <= i <= alive@.len(),
                pred == not_id(my_id),
                alive_set@ == alive@.take(i as int).to_set(),
                ids@ == alive@.take(i as int).filter(pred),
                forall|k: u8| #[trigger] addrs@.contains_key(k) <==> ids@.contains(k),
                forall|k: u8| #[trigger] addrs@.contains_key(k) ==> addrs@[k]@ == peer_msg_text(k),
            decreases alive@.len() - i,
        {
            let id = alive[i];
            proof {
                assert(alive@.take(i + 1) =~= alive@.take(i as int).push(id));
                alive@.take(i as int).lemma_push_to_set_commute(id);
                alive@.take(i as int).lemma_filter_push(id, pred);
            }
            alive_set.insert(id);
            if id != my_id {
                let ghost before = ids@;
                ids.push(id);
                let a = peer_msg_addr(id);
                addrs.insert(id, a);
                proof {
                    assert forall|k: u8| #[trigger] addrs@.contains_key(k) <==> ids@.contains(k) by {
                        if before.contains(k) {
                            let j = choose|j: int| 0 <= j < before.len() && before[j] == k;
                            assert(ids@[j] == k);
                        }
                        if ids@.contains(k) && k != id {
                            let j = choose|j: int| 0 <= j < ids@.len() && ids@[j] == k;
                            assert(before[j] == k);
                        }
                        if k == id {
                            assert(ids@[before.len() as int] == k);
                        }
                    }
                }
            }
            i = i + 1;
        }
        proof {
            assert(alive@.take(alive@.len() as int) =~= alive@);
        }
        *self = Peers {
            is_master: alive.len() > 0 && alive[0] == my_id,
            master_id: if alive.len() > 0 {
                Some(alive[0])
            } else {
                None
            },
            ids,
            addrs,
        };
        alive_set
    }

    /// Whether this node is the master.
    pub fn is_master(&self) -> (b: bool)
        ensures
            b == self.master_view(),
    {
        self.is_master
    }

    /// The id of the master, if one is known.
    pub fn master_id(&self) -> (m: Option<u8>)
        ensures
            m == self.master_id_view(),
    {
        self.master_id
    }

    /// The ids of the peers.
    pub fn ids(&self) -> (s: &[u8])
        ensures
            s@ == self.ids_view(),
    {
        self.ids.as_slice()
    }

    /// The message address of peer `id`; none for an id that is not a peer.
    pub fn addr(&self, id: u8) -> (r: Option<&String>)
        ensures
            r is Some <==> self.ids_view().contains(id),
            r matches Some(s) ==> s@ == peer_msg_text(id),
    {
        proof {
            use_type_invariant(self);
        }
        self.addrs.get(&id)
    }
}

} // verus!
