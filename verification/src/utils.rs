use vstd::prelude::*;

use std::collections::HashMap;
use std::collections::VecDeque;

use crate::assignment::{
    addressed_to, closest_order_otw, contains_idx, copy_ids, dist, eligible_orders, find_closest_order_otw,
    floor_dist, get_eligible_orders, next_assigned, next_choice, on_the_way, order_on_the_way,
    rebuild_queue, rebuilt_queue, resolve_hall_direction,
};
use crate::elevio::{CallButton, CallType};
use crate::order::{order_is_for, NextOrderResult, Order};
use crate::order_list::without_order;

verus! {

broadcast use vstd::std_specs::hash::group_hash_axioms;

/// Whether elevator `idx` may serve `order`.
pub fn is_mine(order: Order, idx: usize) -> (b: bool)
    ensures
        b == order_is_for(order, idx),
{
    order.elev_idx == idx || !matches!(order.cb.call, CallType::Cab)
}

fn elevator_may_take_order(elev_idx: usize, order: &Order) -> (b: bool)
    ensures
        b == order_is_for(*order, elev_idx),
{
    !matches!(order.cb.call, CallType::Cab) || order.elev_idx == elev_idx
}

/// Whether elevator `i` serves an order.
pub open spec fn serving(current: Map<usize, Option<Order>>, i: usize) -> bool {
    current.contains_key(i) && current[i] is Some
}

/// The alive elevators that serve an order.
pub open spec fn busy_of(alive: Seq<usize>, current: Map<usize, Option<Order>>) -> Seq<usize> {
    alive.filter(|i: usize| serving(current, i))
}

/// The alive elevators that are not busy and may serve `order`.
pub open spec fn idle_of(alive: Seq<usize>, current: Map<usize, Option<Order>>, order: Order) -> Seq<usize> {
    alive.filter(|i: usize| !busy_of(alive, current).contains(i) && order_is_for(order, i))
}

/// Of the candidates with a known floor, the first one nearest to `floor`.
pub open spec fn closest_of(cands: Seq<usize>, floor: u8, pos: Map<usize, u8>) -> Option<usize>
    decreases cands.len(),
{
    if cands.len() == 0 {
        None
    } else {
        let rest = closest_of(cands.drop_last(), floor, pos);
        let c = cands.last();
        if !pos.contains_key(c) {
            rest
        } else {
            match rest {
                None => Some(c),
                Some(r) => if floor_dist(pos[c], floor) < floor_dist(pos[r], floor) {
                    Some(c)
                } else {
                    rest
                },
            }
        }
    }
}

/// Whether busy elevator `idx` passes `order` on its way.
pub open spec fn passes(idx: usize, order: Order, current: Map<usize, Option<Order>>, pos: Map<usize, u8>) -> bool {
    serving(current, idx) && pos.contains_key(idx) && on_the_way(idx, pos[idx], current[idx]->0, order)
}

/// The first busy elevator that passes `order` on its way, with its current order.
pub open spec fn first_passing(
    busy: Seq<usize>,
    order: Order,
    current: Map<usize, Option<Order>>,
    pos: Map<usize, u8>,
) -> Option<(usize, Order)>
    decreases busy.len(),
{
    if busy.len() == 0 {
        None
    } else if passes(busy[0], order, current, pos) {
        Some((busy[0], current[busy[0]]->0))
    } else {
        first_passing(busy.drop_first(), order, current, pos)
    }
}

/// What assigning a new order does to (queue, current orders) and which
/// elevator it names: an order already queued changes nothing; else the
/// queue is rebuilt with the order at the back, a busy elevator that passes
/// it takes it (its current order goes to the front of the queue), or else
/// the nearest idle elevator; a taken order leaves the queue.
pub open spec fn outcome(
    q: Seq<Order>,
    pos: Map<usize, u8>,
    cur: Map<usize, Option<Order>>,
    alive: Seq<usize>,
    order: Order,
) -> (Seq<Order>, Map<usize, Option<Order>>, Option<usize>) {
    if q.contains(order) {
        (q, cur, None)
    } else {
        let rq = rebuilt_queue(q, order);
        match first_passing(busy_of(alive, cur), order, cur, pos) {
            Some((idx, paused)) => (without_order(seq![paused] + rq, order), cur.insert(idx, Some(order)), Some(idx)),
            None => match closest_of(idle_of(alive, cur, order), order.cb.floor, pos) {
                Some(c) => (without_order(rq, order), cur.insert(c, Some(order)), Some(c)),
                None => (rq, cur, None),
            },
        }
    }
}

fn remove_order(orders: &mut VecDeque<Order>, order: &Order)
    ensures
        final(orders)@ == without_order(old(orders)@, *order),
{
    let ghost pred = crate::order_list::differs_from(*order);
    let n = orders.len();
    let mut kept: VecDeque<Order> = VecDeque::new();
    let mut i: usize = 0;
    while i < n
        invariant
            n == orders@.len(),
            0 <= i <= n,
            pred == crate::order_list::differs_from(*order),
            kept@ == orders@.take(i as int).filter(pred),
        decreases n - i,
    {
        let o = orders[i];
        if o != *order {
            kept.push_back(o);
        }
        assert(orders@.take(i + 1) =~= orders@.take(i as int).push(o));
        proof {
            orders@.take(i as int).lemma_filter_push(o, pred);
        }
        i = i + 1;
    }
    assert(orders@.take(n as int) =~= orders@);
    *orders = kept;
}

fn queue_has(orders: &VecDeque<Order>, order: &Order) -> (b: bool)
    ensures
        b == orders@.contains(*order),
{
    let mut i: usize = 0;
    while i < orders.len()
        invariant
            0 <= i <= orders@.len(),
            forall|j: int| 0 <= j < i ==> orders@[j] != *order,
        decreases orders@.len() - i,
    {
        if orders[i] == *order {
            return true;
        }
        i = i + 1;
    }
    false
}

fn is_serving(current_orders: &HashMap<usize, Option<Order>>, i: usize) -> (b: bool)
    ensures
        b == serving(current_orders@, i),
{
    match current_orders.get(&i) {
        Some(o) => o.is_some(),
        None => false,
    }
}

fn designate_busy_idle(alive_elevs: Vec<usize>, current_orders: &HashMap<usize, Option<Order>>, order: Order) -> (r: (
    Vec<usize>,
    Vec<usize>,
))
    ensures
        r.0@ == busy_of(alive_elevs@, current_orders@),
        r.1@ == idle_of(alive_elevs@, current_orders@, order),
{
    let ghost cur = current_orders@;
    let ghost bpred = |i: usize| serving(cur, i);
    let n = alive_elevs.len();
    let mut busy: Vec<usize> = Vec::new();
    let mut i: usize = 0;
    while i < n
        invariant
            n == alive_elevs@.len(),
            0 <= i <= n,
            cur == current_orders@,
            bpred == (|i: usize| serving(cur, i)),
            busy@ == alive_elevs@.take(i as int).filter(bpred),
        decreases n - i,
    {
        let e = alive_elevs[i];
        if is_serving(current_orders, e) {
            busy.push(e);
        }
        assert(alive_elevs@.take(i + 1) =~= alive_elevs@.take(i as int).push(e));
        proof {
            alive_elevs@.take(i as int).lemma_filter_push(e, bpred);
        }
        i = i + 1;
    }
    assert(alive_elevs@.take(n as int) =~= alive_elevs@);
    let ghost bseq = busy@;
    let ghost ipred = |i: usize| !bseq.contains(i) && order_is_for(order, i);
    let mut idle: Vec<usize> = Vec::new();
    let mut i: usize = 0;
    while i < n
        invariant
            n == alive_elevs@.len(),
            0 <= i <= n,
            bseq == busy@,
            ipred == (|i: usize| !bseq.contains(i) && order_is_for(order, i)),
            idle@ == alive_elevs@.take(i as int).filter(ipred),
        decreases n - i,
    {
        let e = alive_elevs[i];
        if !contains_idx(&busy, e) && elevator_may_take_order(e, &order) {
            idle.push(e);
        }
        assert(alive_elevs@.take(i + 1) =~= alive_elevs@.take(i as int).push(e));
        proof {
            alive_elevs@.take(i as int).lemma_filter_push(e, ipred);
        }
        i = i + 1;
    }
    assert(alive_elevs@.take(n as int) =~= alive_elevs@);
    (busy, idle)
}

fn find_closest_elev(candidates: Vec<usize>, order: &Order, positions: &HashMap<usize, u8>) -> (r: Option<usize>)
    ensures
        r == closest_of(candidates@, order.cb.floor, positions@),
{
    let n = candidates.len();
    let mut best: Option<usize> = None;
    let mut best_dist: u8 = 0;
    let mut i: usize = 0;
    while i < n
        invariant
            n == candidates@.len(),
            0 <= i <= n,
            best == closest_of(candidates@.take(i as int), order.cb.floor, positions@),
            best matches Some(b) ==> positions@.contains_key(b) && best_dist == floor_dist(
                positions@[b],
                order.cb.floor,
            ),
        decreases n - i,
    {
        let c = candidates[i];
        assert(candidates@.take(i + 1).drop_last() =~= candidates@.take(i as int));
        match positions.get(&c) {
            Some(p) => {
                let d = dist(*p, order.cb.floor);
                match best {
                    None => {
                        best = Some(c);
                        best_dist = d;
                    },
                    Some(_) => {
                        if d < best_dist {
                            best = Some(c);
                            best_dist = d;
                        }
                    },
                }
            },
            None => {},
        }
        i = i + 1;
    }
    assert(candidates@.take(n as int) =~= candidates@);
    best
}

fn find_order_otw(
    busy_elevs: Vec<usize>,
    order: &Order,
    current_orders: &HashMap<usize, Option<Order>>,
    positions: &HashMap<usize, u8>,
) -> (r: Option<(usize, Order)>)
    ensures
        r == first_passing(busy_elevs@, *order, current_orders@, positions@),
{
    let n = busy_elevs.len();
    let mut i: usize = 0;
    assert(busy_elevs@.skip(0) =~= busy_elevs@);
    while i < n
        invariant
            n == busy_elevs@.len(),
            0 <= i <= n,
            first_passing(busy_elevs@, *order, current_orders@, positions@) == first_passing(
                busy_elevs@.skip(i as int),
                *order,
                current_orders@,
                positions@,
            ),
        decreases n - i,
    {
        let idx = busy_elevs[i];
        assert(busy_elevs@.skip(i as int)[0] == idx);
        assert(busy_elevs@.skip(i as int).drop_first() =~= busy_elevs@.skip(i + 1));
        match current_orders.get(&idx) {
            Some(Some(curr)) => {
                match positions.get(&idx) {
                    Some(pos) => {
                        if order_on_the_way(idx, *pos, *curr, *order) {
                            return Some((idx, *curr));
                        }
                    },
                    None => {},
                }
            },
            _ => {},
        }
        i = i + 1;
    }
    assert(busy_elevs@.skip(n as int) =~= Seq::<usize>::empty());
    None
}

/// Assigns a newly requested order over a plain queue, the floors of the
/// elevators, and their optional current orders (see `outcome`).
pub fn assign_new_order(
    order: Order,
    orders: &mut VecDeque<Order>,
    positions: &HashMap<usize, u8>,
    current_orders: &mut HashMap<usize, Option<Order>>,
    alive_elevs: &[usize],
) -> (r: Option<usize>)
    ensures
        (final(orders)@, final(current_orders)@, r) == outcome(
            old(orders)@,
            positions@,
            old(current_orders)@,
            alive_elevs@,
            order,
        ),
{
    if queue_has(orders, &order) {
        return None;
    }
    let rebuilt = rebuild_queue(orders, order);
    *orders = rebuilt;
    let (busy_elevs, available_elevs) = designate_busy_idle(copy_ids(alive_elevs), current_orders, order);
    if let Some((elev_idx, paused_order)) = find_order_otw(busy_elevs, &order, current_orders, positions) {
        orders.push_front(paused_order);
        remove_order(orders, &order);
        current_orders.insert(elev_idx, Some(order));
        return Some(elev_idx);
    }
    if let Some(closest) = find_closest_elev(available_elevs, &order, positions) {
        current_orders.insert(closest, Some(order));
        remove_order(orders, &order);
        return Some(closest);
    }
    None
}

/// Picks the next order for the elevator that completed `completed`, as
/// the assignment over an order list does, over a plain queue and optional
/// current orders; the chosen order leaves the queue by equality.
pub fn assign_next_order(
    completed: Order,
    orders: &mut VecDeque<Order>,
    current_orders: &mut HashMap<usize, Option<Order>>,
) -> (r: NextOrderResult)
    ensures
        r.clear == next_choice(old(orders)@, completed).1,
        match next_assigned(old(orders)@, completed) {
            None => {
                &&& r.next is None
                &&& final(orders)@ == old(orders)@
                &&& final(current_orders)@ == old(current_orders)@
            },
            Some(a) => {
                &&& r.next == Some(addressed_to(a, completed.elev_idx))
                &&& final(orders)@ == without_order(old(orders)@, a)
                &&& final(current_orders)@ == old(current_orders)@.insert(completed.elev_idx, Some(a))
            },
        },
{
    let mut result = NextOrderResult { next: None, clear: None };
    let eligible = get_eligible_orders(orders, completed);
    match completed.cb.call {
        CallType::Cab => {
            if eligible.len() > 0 {
                let order = eligible[0];
                if order.cb.floor > completed.cb.floor {
                    result.clear = Some(
                        Order {
                            cb: CallButton { floor: completed.cb.floor, call: CallType::HallUp },
                            elev_idx: completed.elev_idx,
                        },
                    );
                } else if order.cb.floor < completed.cb.floor {
                    result.clear = Some(
                        Order {
                            cb: CallButton { floor: completed.cb.floor, call: CallType::HallDown },
                            elev_idx: completed.elev_idx,
                        },
                    );
                }
                result.next = Some(order);
            }
        },
        _ => {
            resolve_hall_direction(&mut result, eligible.as_slice(), &completed);
        },
    }
    if let Some(first) = result.next {
        let order = find_closest_order_otw(first, eligible, completed);
        remove_order(orders, &order);
        current_orders.insert(completed.elev_idx, Some(order));
        result.next = Some(Order { cb: order.cb, elev_idx: completed.elev_idx });
    }
    result
}

} // verus!
