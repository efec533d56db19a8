use vstd::prelude::*;

use std::collections::HashMap;
use std::collections::VecDeque;

use crate::elevio::CallType;
use crate::order::Order;

verus! {

broadcast use vstd::std_specs::hash::group_hash_axioms;

/// Whether `o` stands for the same request as `order`: a cab order only
/// matches itself, a hall order matches any order with the same button.
pub open spec fn same_request(o: Order, order: Order) -> bool {
    if order.cb.call == CallType::Cab {
        o == order
    } else {
        o.cb == order.cb
    }
}

/// Whether the queue `q` or the current orders `m` hold an order that stands
/// for the same request as `order`.
pub open spec fn contains_request(q: Seq<Order>, m: Map<usize, Order>, order: Order) -> bool {
    ||| exists|i: int| 0 <= i < q.len() && same_request(#[trigger] q[i], order)
    ||| exists|k: usize| m.contains_key(k) && same_request(#[trigger] m[k], order)
}

/// The queue after `order` is enqueued: unchanged when the request is known, else with `order` at the back.
pub open spec fn enqueued(q: Seq<Order>, m: Map<usize, Order>, order: Order) -> Seq<Order> {
    if contains_request(q, m, order) {
        q
    } else {
        q.push(order)
    }
}

/// The orders of `s` that the call of a predicate kept: `keep[i]` says
/// whether `s[i]` stays.
pub open spec fn select(s: Seq<Order>, keep: Seq<bool>) -> Seq<Order>
    recommends
        keep.len() == s.len(),
    decreases s.len(),
{
    if s.len() == 0 {
        s
    } else {
        let rest = select(s.drop_last(), keep.drop_last());
        if keep.last() {
            rest.push(s.last())
        } else {
            rest
        }
    }
}

/// The test that keeps the orders not standing for the same request as `order`.
pub open spec fn differs_from_request(order: Order) -> spec_fn(Order) -> bool {
    |o: Order| !same_request(o, order)
}

/// `s` without the orders that stand for the same request as `order`.
pub open spec fn without_request(s: Seq<Order>, order: Order) -> Seq<Order> {
    s.filter(differs_from_request(order))
}

/// The test that keeps the orders other than `order`.
pub open spec fn differs_from(order: Order) -> spec_fn(Order) -> bool {
    |o: Order| o != order
}

/// `s` without the orders equal to `order`.
pub open spec fn without_order(s: Seq<Order>, order: Order) -> Seq<Order> {
    s.filter(differs_from(order))
}

/// Whether `after` is what `before` becomes when each order stays exactly
/// when a call of `f` on it answers `true`.
pub open spec fn kept_by<F: Fn(&Order) -> bool>(f: F, before: Seq<Order>, after: Seq<Order>) -> bool {
    exists|keep: Seq<bool>|
        #![trigger select(before, keep)]
        {
            &&& keep.len() == before.len()
            &&& forall|i: int| 0 <= i < keep.len() ==> call_ensures(f, (&before[i],), #[trigger] keep[i])
            &&& after == select(before, keep)
        }
}

/// Whether `listed` holds the value of each key of `m` exactly once, the keys
/// taken in some order.
pub open spec fn lists_values(listed: Seq<Order>, m: Map<usize, Order>) -> bool {
    exists|keys: Seq<usize>|
        #![trigger keys.to_set()]
        {
            &&& keys.no_duplicates()
            &&& keys.to_set() == m.dom()
            &&& listed == keys.map_values(|k: usize| m[k])
        }
}

/// Where each kept flag agrees with a predicate, selecting by the flags is filtering by it.
pub proof fn lemma_select_is_filter(s: Seq<Order>, keep: Seq<bool>, pred: spec_fn(Order) -> bool)
    requires
        keep.len() == s.len(),
        forall|i: int| 0 <= i < s.len() ==> keep[i] == pred(s[i]),
    ensures
        select(s, keep) == s.filter(pred),
    decreases s.len(),
{
    reveal(Seq::filter);
    if s.len() > 0 {
        assert(forall|i: int|
            0 <= i < s.len() - 1 ==> s.drop_last()[i] == s[i] && keep.drop_last()[i] == keep[i]);
        lemma_select_is_filter(s.drop_last(), keep.drop_last(), pred);
        assert(keep.last() == pred(s.last()));
    }
}

/// Whether `o` stands for the same request as `order`.
pub fn is_same_request(o: &Order, order: &Order) -> (b: bool)
    ensures
        b == same_request(*o, *order),
{
    match order.cb.call {
        CallType::Cab => *o == *order,
        _ => o.cb == order.cb,
    }
}

/// The queue of waiting orders and the order each elevator is serving.
pub struct OrderList {
    queue: VecDeque<Order>,
    current_orders: HashMap<usize, Order>,
}

impl OrderList {
    /// The waiting orders, front first.
    pub closed spec fn queue_view(&self) -> Seq<Order> {
        self.queue@
    }

    /// The order each elevator is serving, by elevator index.
    pub closed spec fn current_view(&self) -> Map<usize, Order> {
        self.current_orders@
    }

    /// Whether some waiting or current order stands for the same request as `order`.
    pub open spec fn spec_contains(&self, order: Order) -> bool {
        contains_request(self.queue_view(), self.current_view(), order)
    }

    pub fn new() -> (l: Self)
        ensures
            l.queue_view() == Seq::<Order>::empty(),
            l.current_view() == Map::<usize, Order>::empty(),
    {
        Self { queue: VecDeque::with_capacity(9), current_orders: HashMap::new() }
    }

    pub fn contains(&self, order: &Order) -> (b: bool)
        ensures
            b == self.spec_contains(*order),
    {
        let n = self.queue.len();
        let mut i: usize = 0;
        while i < n
            invariant
                n == self.queue@.len(),
                0 <= i <= n,
                forall|j: int| 0 <= j < i ==> !same_request(#[trigger] self.queue@[j], *order),
            decreases n - i,
        {
            let o = self.queue[i];
            let hit = is_same_request(&o, order);
            if hit {
                assert(same_request(self.queue@[i as int], *order));
                return true;
            }
            i = i + 1;
        }
        for kv in it: self.current_orders.iter()
            invariant
                forall|j: int| 0 <= j < self.queue@.len() ==> !same_request(#[trigger] self.queue@[j], *order),
                forall|j: int| 0 <= j < it.index() ==> !same_request(*(#[trigger] it.seq()[j]).1, *order),
        {
            let (k, o) = kv;
            let hit = is_same_request(o, order);
            if hit {
                assert(it.seq()[it.index() as int] == kv);
                assert(self.current_orders@.contains_key(*k));
                assert(same_request(self.current_orders@[*k], *order));
                return true;
            }
        }
        false
    }

    /// Adds `order` at the back of the queue unless the same request is already known.
    pub fn enqueue(&mut self, order: Order)
        ensures
            final(self).current_view() == old(self).current_view(),
            final(self).queue_view() == enqueued(old(self).queue_view(), old(self).current_view(), order),
    {
        if !self.contains(&order) {
            self.queue.push_back(order);
        }
    }

    /// Removes from the queue every order that stands for the same request as `order`.
    pub fn dequeue(&mut self, order: &Order)
        ensures
            final(self).current_view() == old(self).current_view(),
            final(self).queue_view() == without_request(old(self).queue_view(), *order),
    {
        let ghost pred = differs_from_request(*order);
        let n = self.queue.len();
        let mut kept: VecDeque<Order> = VecDeque::new();
        let mut i: usize = 0;
        while i < n
            invariant
                n == self.queue@.len(),
                0 <= i <= n,
                pred == differs_from_request(*order),
                kept@ == self.queue@.take(i as int).filter(pred),
            decreases n - i,
        {
            let o = self.queue[i];
            let hit = is_same_request(&o, order);
            assert(pred(o) == !hit);
            if !hit {
                kept.push_back(o);
            }
            assert(self.queue@.take(i + 1) =~= self.queue@.take(i as int).push(o));
            proof { self.queue@.take(i as int).lemma_filter_push(o, pred); }
            i = i + 1;
        }
        assert(self.queue@.take(n as int) =~= self.queue@);
        self.queue = kept;
    }

    /// Puts `order` at the front of the queue.
    pub fn push_front(&mut self, order: Order)
        ensures
            final(self).current_view() == old(self).current_view(),
            final(self).queue_view() == seq![order] + old(self).queue_view(),
    {
        self.queue.push_front(order);
    }

    /// Puts `order` at the back of the queue.
    pub fn push_back(&mut self, order: Order)
        ensures
            final(self).current_view() == old(self).current_view(),
            final(self).queue_view() == old(self).queue_view().push(order),
    {
        self.queue.push_back(order);
    }

    /// Keeps in the queue, in order, the orders for which `f` answers `true`.
    pub fn retain(&mut self, f: impl Fn(&Order) -> bool)
        requires
            forall|o: Order| call_requires(f, (&o,)),
        ensures
            final(self).current_view() == old(self).current_view(),
            kept_by(f, old(self).queue_view(), final(self).queue_view()),
    {
        let n = self.queue.len();
        let mut kept: VecDeque<Order> = VecDeque::new();
        let ghost mut keep: Seq<bool> = Seq::empty();
        let mut i: usize = 0;
        while i < n
            invariant
                n == self.queue@.len(),
                0 <= i <= n,
                forall|o: Order| call_requires(f, (&o,)),
                keep.len() == i,
                forall|j: int| 0 <= j < i ==> call_ensures(f, (&self.queue@[j],), #[trigger] keep[j]),
                kept@ == select(self.queue@.take(i as int), keep),
            decreases n - i,
        {
            let o = self.queue[i];
            let b = f(&o);
            if b {
                kept.push_back(o);
            }
            proof {
                let ghost prev = keep;
                keep = keep.push(b);
                assert(self.queue@.take(i + 1).drop_last() =~= self.queue@.take(i as int));
                assert(keep.drop_last() =~= prev);
            }
            i = i + 1;
        }
        assert(self.queue@.take(n as int) =~= self.queue@);
        let ghost before = self.queue@;
        self.queue = kept;
        assert(self.queue@ == select(before, keep));
        assert(keep.len() == before.len());
        assert(forall|i: int| 0 <= i < keep.len() ==> call_ensures(f, (&before[i],), #[trigger] keep[i]));
        assert(kept_by(f, before, self.queue@));
    }

    /// Replaces the queue.
    pub fn set_queue(&mut self, queue: VecDeque<Order>)
        ensures
            final(self).current_view() == old(self).current_view(),
            final(self).queue_view() == queue@,
    {
        self.queue = queue;
    }

    /// The waiting orders.
    pub fn queue(&self) -> (q: &VecDeque<Order>)
        ensures
            q@ == self.queue_view(),
    {
        &self.queue
    }

    /// Records that elevator `elev_idx` now serves `order`.
    pub fn assign(&mut self, elev_idx: usize, order: Order)
        ensures
            final(self).queue_view() == old(self).queue_view(),
            final(self).current_view() == old(self).current_view().insert(elev_idx, order),
    {
        self.current_orders.insert(elev_idx, order);
    }

    /// Forgets the order of elevator `elev_idx` and returns it.
    pub fn unassign(&mut self, elev_idx: usize) -> (r: Option<Order>)
        ensures
            final(self).queue_view() == old(self).queue_view(),
            final(self).current_view() == old(self).current_view().remove(elev_idx),
            r == (if old(self).current_view().contains_key(elev_idx) {
                Some(old(self).current_view()[elev_idx])
            } else {
                None
            }),
    {
        self.current_orders.remove(&elev_idx)
    }

    /// The order elevator `elev_idx` serves, if any.
    pub fn current_order(&self, elev_idx: usize) -> (r: Option<&Order>)
        ensures
            r == (if self.current_view().contains_key(elev_idx) {
                Some(&self.current_view()[elev_idx])
            } else {
                None
            }),
    {
        self.current_orders.get(&elev_idx)
    }

    /// Whether elevator `elev_idx` serves an order.
    pub fn has_assignment(&self, elev_idx: usize) -> (b: bool)
        ensures
            b == self.current_view().contains_key(elev_idx),
    {
        self.current_orders.contains_key(&elev_idx)
    }

    /// The waiting orders, front first, followed by the order of each
    /// elevator that serves one (one entry per elevator, in no set order).
    pub fn all_orders(&self) -> (r: Vec<Order>)
        ensures
            r@.len() == self.queue_view().len() + self.current_view().dom().len(),
            r@.take(self.queue_view().len() as int) == self.queue_view(),
            lists_values(r@.skip(self.queue_view().len() as int), self.current_view()),
    {
        let n = self.queue.len();
        let mut r: Vec<Order> = Vec::new();
        let mut i: usize = 0;
        while i < n
            invariant
                n == self.queue@.len(),
                0 <= i <= n,
                r@ == self.queue@.take(i as int),
            decreases n - i,
        {
            r.push(self.queue[i]);
            assert(self.queue@.take(i + 1) =~= self.queue@.take(i as int).push(self.queue@[i as int]));
            i = i + 1;
        }
        assert(self.queue@.take(n as int) =~= self.queue@);
        let ghost q = r@;
        let entries = self.current_orders.iter();
        let ghost s = vstd::std_specs::iter::IteratorSpec::remaining(&entries);
        for kv in it: entries
            invariant
                it.seq() == s,
                q == self.queue@,
                r@.len() == q.len() + it.index(),
                r@.take(q.len() as int) == q,
                forall|j: int| 0 <= j < it.index() ==> r@[q.len() + j] == *(#[trigger] s[j]).1,
        {
            let (_k, o) = kv;
            proof {
                assert(it.seq()[it.index() as int] == kv);
            }
            r.push(*o);
            assert(r@.take(q.len() as int) =~= q);
        }
        proof {
            assert(r@.len() == q.len() + s.len());
            let tail = r@.skip(self.queue_view().len() as int);
            let m = self.current_view();
            let keys = s.map_values(|e: (&usize, &Order)| *e.0);
            assert forall|i: int, j: int| 0 <= i < keys.len() && 0 <= j < keys.len() && i != j implies keys[i]
                != keys[j] by {
                assert(m.contains_key(*s[i].0));
                assert(m.contains_key(*s[j].0));
            }
            assert forall|k: usize| keys.to_set().contains(k) <==> m.contains_key(k) by {
                if m.contains_key(k) {
                    let idx = choose|idx: int| 0 <= idx < s.len() && s[idx] == (&k, &m[k]);
                    assert(keys[idx] == k);
                }
                if keys.to_set().contains(k) {
                    let idx = choose|idx: int| 0 <= idx < keys.len() && keys[idx] == k;
                    assert(m.contains_key(*s[idx].0));
                }
            }
            assert(keys.to_set() =~= m.dom());
            assert forall|j: int| 0 <= j < tail.len() implies tail[j] == keys.map_values(|k: usize| m[k])[j] by {
                assert(m.contains_key(*s[j].0));
            }
            assert(tail =~= keys.map_values(|k: usize| m[k]));
            assert(lists_values(tail, m));
        }
        r
    }
}

} // verus!

verus! {

/// Once an order is enqueued, the list knows its request.
pub proof fn lemma_enqueue_then_contains(q: Seq<Order>, m: Map<usize, Order>, order: Order)
    ensures
        contains_request(enqueued(q, m, order), m, order),
{
    if !contains_request(q, m, order) {
        let q2 = q.push(order);
        assert(same_request(q2[q.len() as int], order));
    }
}

/// Enqueuing the same order twice leaves the queue as enqueuing it once.
pub proof fn lemma_enqueue_idempotent(q: Seq<Order>, m: Map<usize, Order>, order: Order)
    ensures
        enqueued(enqueued(q, m, order), m, order) == enqueued(q, m, order),
{
    lemma_enqueue_then_contains(q, m, order);
}

/// After a dequeue no waiting order stands for the dequeued request, and
/// every other waiting order stays, in order.
pub proof fn lemma_dequeue_removes_request(q: Seq<Order>, order: Order)
    ensures
        forall|i: int|
            0 <= i < without_request(q, order).len() ==> !same_request(
                #[trigger] without_request(q, order)[i],
                order,
            ),
        forall|i: int|
            0 <= i < q.len() && !same_request(q[i], order) ==> without_request(q, order).contains(
                #[trigger] q[i],
            ),
{
    broadcast use vstd::seq_lib::group_filter_ensures;
    let p = differs_from_request(order);
    assert forall|i: int| 0 <= i < q.filter(p).len() implies p(#[trigger] q.filter(p)[i]) by {
        q.lemma_filter_pred(p, i);
    }
    assert forall|i: int| 0 <= i < q.len() && !same_request(q[i], order) implies q.filter(p).contains(
        #[trigger] q[i],
    ) by {
        q.lemma_filter_contains(p, i);
    }
}

} // verus!
