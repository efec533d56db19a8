use vstd::prelude::*;

use std::collections::HashMap;
use std::collections::VecDeque;

use crate::elevio::{CallButton, CallType};
use crate::order::{order_is_for, NextOrderResult, Order};
use crate::order_list::{without_request, OrderList};
use crate::types::Position;

verus! {

broadcast use vstd::std_specs::hash::group_hash_axioms;

/// The distance between two floors.
pub open spec fn floor_dist(a: u8, b: u8) -> int {
    if a > b {
        a - b
    } else {
        b - a
    }
}

/// Whether elevator `i` has a known position and an unobstructed door.
pub open spec fn usable(pos: Map<usize, Position>, i: usize) -> bool {
    pos.contains_key(i) && !pos[i].obstruction
}

/// The alive elevators that serve an order and can move.
pub open spec fn busy_elevs(alive: Seq<usize>, current: Map<usize, Order>, pos: Map<usize, Position>) -> Seq<usize> {
    alive.filter(|i: usize| current.contains_key(i) && usable(pos, i))
}

/// The alive elevators that are not busy, may serve `order` and can move.
pub open spec fn idle_elevs(
    alive: Seq<usize>,
    current: Map<usize, Order>,
    pos: Map<usize, Position>,
    order: Order,
) -> Seq<usize> {
    alive.filter(
        |i: usize| !busy_elevs(alive, current, pos).contains(i) && order_is_for(order, i) && usable(pos, i),
    )
}

/// The cab orders of `q` in order, then its hall orders in order, then `order`.
pub open spec fn rebuilt_queue(q: Seq<Order>, order: Order) -> Seq<Order> {
    q.filter(|o: Order| o.cb.call == CallType::Cab) + q.filter(|o: Order| o.cb.call != CallType::Cab) + seq![
        order,
    ]
}

/// Whether an elevator at floor `position`, heading for `curr_order`, passes
/// the floor of `new_order` in the direction that `new_order` asks for, and may serve it.
pub open spec fn on_the_way(elev_idx: usize, position: u8, curr_order: Order, new_order: Order) -> bool {
    let new_floor = new_order.cb.floor;
    let curr_floor = curr_order.cb.floor;
    let new_call = new_order.cb.call;
    let is_below = curr_floor <= new_floor && new_floor < position;
    let is_above = curr_floor >= new_floor && new_floor > position;
    let on_way_down = new_call == CallType::HallDown || new_call == CallType::Cab;
    let on_way_up = new_call == CallType::HallUp || new_call == CallType::Cab;
    (is_below && on_way_down && order_is_for(new_order, elev_idx)) || (is_above && on_way_up && order_is_for(
        new_order,
        elev_idx,
    ))
}

/// Of the candidates with a known position, the first one nearest to `floor`.
pub open spec fn closest_elev(cands: Seq<usize>, floor: u8, pos: Map<usize, Position>) -> Option<usize>
    decreases cands.len(),
{
    if cands.len() == 0 {
        None
    } else {
        let rest = closest_elev(cands.drop_last(), floor, pos);
        let c = cands.last();
        if !pos.contains_key(c) {
            rest
        } else {
            match rest {
                None => Some(c),
                Some(r) => if floor_dist(pos[c].floor, floor) < floor_dist(pos[r].floor, floor) {
                    Some(c)
                } else {
                    rest
                },
            }
        }
    }
}

/// Whether busy elevator `idx` can put its current order aside for `order`:
/// it has an order and a position, and `order` lies on its way.
pub open spec fn can_pause_for(idx: usize, order: Order, current: Map<usize, Order>, pos: Map<usize, Position>) -> bool {
    current.contains_key(idx) && pos.contains_key(idx) && on_the_way(idx, pos[idx].floor, current[idx], order)
}

/// The first busy elevator that can put its current order aside for
/// `order`, with that current order.
pub open spec fn first_pausable(
    busy: Seq<usize>,
    order: Order,
    current: Map<usize, Order>,
    pos: Map<usize, Position>,
) -> Option<(usize, Order)>
    decreases busy.len(),
{
    if busy.len() == 0 {
        None
    } else if can_pause_for(busy[0], order, current, pos) {
        Some((busy[0], current[busy[0]]))
    } else {
        first_pausable(busy.drop_first(), order, current, pos)
    }
}

/// The first order of `s` that passes `p`.
pub open spec fn first_where(s: Seq<Order>, p: spec_fn(Order) -> bool) -> Option<Order>
    decreases s.len(),
{
    if s.len() == 0 {
        None
    } else if p(s[0]) {
        Some(s[0])
    } else {
        first_where(s.drop_first(), p)
    }
}

/// Of the orders passing `p`, the first one nearest to `floor`.
pub open spec fn closest_order_where(s: Seq<Order>, p: spec_fn(Order) -> bool, floor: u8) -> Option<Order>
    decreases s.len(),
{
    if s.len() == 0 {
        None
    } else {
        let rest = closest_order_where(s.drop_last(), p, floor);
        let c = s.last();
        if !p(c) {
            rest
        } else {
            match rest {
                None => Some(c),
                Some(r) => if floor_dist(c.cb.floor, floor) < floor_dist(r.cb.floor, floor) {
                    Some(c)
                } else {
                    rest
                },
            }
        }
    }
}

/// The test for an order on the way from the completed order's floor towards `target`.
pub open spec fn on_the_way_test(completed: Order, target: Order) -> spec_fn(Order) -> bool {
    |o: Order| on_the_way(completed.elev_idx, completed.cb.floor, target, o)
}

/// The nearest order on the way from the completed order's floor towards
/// `target`, or `target` itself when none is.
pub open spec fn closest_order_otw(target: Order, eligible: Seq<Order>, completed: Order) -> Order {
    match closest_order_where(eligible, on_the_way_test(completed, target), completed.cb.floor) {
        Some(o) => o,
        None => target,
    }
}

/// The hall direction opposite to `dir`.
pub open spec fn opposite(dir: CallType) -> CallType {
    match dir {
        CallType::HallUp => CallType::HallDown,
        CallType::HallDown => CallType::HallUp,
        CallType::Cab => CallType::Cab,
    }
}

/// Whether `o` is a cab order beyond `floor` in direction `dir`.
pub open spec fn cab_beyond(o: Order, floor: u8, dir: CallType) -> bool {
    o.cb.call == CallType::Cab && match dir {
        CallType::HallUp => o.cb.floor > floor,
        CallType::HallDown => o.cb.floor < floor,
        CallType::Cab => false,
    }
}

/// Whether an elevator at `floor` going in direction `dir` turns around to
/// serve `order`; nothing when there is no order.
pub open spec fn change_direction(order: Option<Order>, floor: u8, dir: CallType) -> Option<bool> {
    match order {
        None => None,
        Some(o) => Some(
            match dir {
                CallType::HallUp => o.cb.floor < floor,
                CallType::HallDown => o.cb.floor > floor,
                CallType::Cab => false,
            },
        ),
    }
}

/// The first order of a sequence, if any.
pub open spec fn first_of(s: Seq<Order>) -> Option<Order> {
    if s.len() == 0 {
        None
    } else {
        Some(s[0])
    }
}

/// The hall order at `floor` of elevator `elev_idx` with call type `call`.
pub open spec fn hall_order_at(floor: u8, call: CallType, elev_idx: usize) -> Order {
    Order { cb: CallButton { floor, call }, elev_idx }
}

/// The test for a cab order beyond `floor` in direction `dir`.
pub open spec fn cab_beyond_test(floor: u8, dir: CallType) -> spec_fn(Order) -> bool {
    |o: Order| cab_beyond(o, floor, dir)
}

/// After a hall order is completed, the pair (next order, hall order at the
/// same floor that is served along with it) that starts as `prev` becomes:
/// a cab order beyond the floor in the direction of travel is next; else,
/// when the first eligible order lies behind, the elevator turns around at
/// the floor; else the first eligible order is next and the completed hall
/// call is served with it; with nothing eligible the pair stays.
pub open spec fn hall_update(
    prev: (Option<Order>, Option<Order>),
    eligible: Seq<Order>,
    completed: Order,
) -> (Option<Order>, Option<Order>) {
    let dir = completed.cb.call;
    let floor = completed.cb.floor;
    match first_where(eligible, cab_beyond_test(floor, dir)) {
        Some(cab) => (Some(cab), prev.1),
        None => match change_direction(first_of(eligible), floor, dir) {
            Some(true) => (Some(hall_order_at(floor, opposite(dir), completed.elev_idx)), prev.1),
            Some(false) => (first_of(eligible), Some(hall_order_at(floor, dir, completed.elev_idx))),
            None => prev,
        },
    }
}

/// After a hall order is completed: (the next order, the hall order at the
/// same floor that is served along with it), each when there is one.
pub open spec fn hall_choice(eligible: Seq<Order>, completed: Order) -> (Option<Order>, Option<Order>) {
    hall_update((None, None), eligible, completed)
}

/// After a cab order is completed: the first eligible order is next, and the
/// hall call at the floor in its direction is served along with it.
pub open spec fn cab_choice(eligible: Seq<Order>, completed: Order) -> (Option<Order>, Option<Order>) {
    let floor = completed.cb.floor;
    match first_of(eligible) {
        None => (None, None),
        Some(o) => if o.cb.floor > floor {
            (Some(o), Some(hall_order_at(floor, CallType::HallUp, completed.elev_idx)))
        } else if o.cb.floor < floor {
            (Some(o), Some(hall_order_at(floor, CallType::HallDown, completed.elev_idx)))
        } else {
            (Some(o), None)
        },
    }
}

/// The orders of the queue that the elevator of `completed` may serve.
pub open spec fn eligible_orders(q: Seq<Order>, completed: Order) -> Seq<Order> {
    q.filter(|o: Order| order_is_for(o, completed.elev_idx))
}

/// The first choice of next order, and the hall order to clear, after `completed`.
pub open spec fn next_choice(q: Seq<Order>, completed: Order) -> (Option<Order>, Option<Order>) {
    let eligible = eligible_orders(q, completed);
    if completed.cb.call == CallType::Cab {
        cab_choice(eligible, completed)
    } else {
        hall_choice(eligible, completed)
    }
}

/// The order that the elevator of `completed` is given next, as registered
/// (before it is addressed to that elevator).
pub open spec fn next_assigned(q: Seq<Order>, completed: Order) -> Option<Order> {
    match next_choice(q, completed).0 {
        None => None,
        Some(first) => Some(closest_order_otw(first, eligible_orders(q, completed), completed)),
    }
}

/// What assigning a new order does to (queue, current orders) and which
/// elevator it names: a known request changes nothing; else the queue is
/// rebuilt with the order at the back, a busy elevator passing the order on
/// its way takes it and its current order goes to the front of the queue, or
/// else the nearest idle elevator takes it; a taken order leaves the queue.
pub open spec fn new_order_outcome(
    q: Seq<Order>,
    m: Map<usize, Order>,
    pos: Map<usize, Position>,
    alive: Seq<usize>,
    order: Order,
) -> (Seq<Order>, Map<usize, Order>, Option<usize>) {
    if crate::order_list::contains_request(q, m, order) {
        (q, m, None)
    } else {
        let rq = rebuilt_queue(q, order);
        match first_pausable(busy_elevs(alive, m, pos), order, m, pos) {
            Some((idx, paused)) => (without_request(seq![paused] + rq, order), m.insert(idx, order), Some(idx)),
            None => match closest_elev(idle_elevs(alive, m, pos, order), order.cb.floor, pos) {
                Some(c) => (without_request(rq, order), m.insert(c, order), Some(c)),
                None => (rq, m, None),
            },
        }
    }
}

/// `order` addressed to elevator `elev_idx`.
pub open spec fn addressed_to(order: Order, elev_idx: usize) -> Order {
    Order { cb: order.cb, elev_idx }
}

pub(crate) fn dist(a: u8, b: u8) -> (d: u8)
    ensures
        d == floor_dist(a, b),
{
    if a > b {
        a - b
    } else {
        b - a
    }
}

pub(crate) fn contains_idx(v: &Vec<usize>, x: usize) -> (b: bool)
    ensures
        b == v@.contains(x),
{
    let mut i: usize = 0;
    while i < v.len()
        invariant
            0 <= i <= v.len(),
            forall|j: int| 0 <= j < i ==> v@[j] != x,
        decreases v.len() - i,
    {
        if v[i] == x {
            return true;
        }
        i = i + 1;
    }
    false
}

pub(crate) fn get_eligible_orders(orders: &VecDeque<Order>, completed: Order) -> (r: Vec<Order>)
    ensures
        r@ == eligible_orders(orders@, completed),
{
    let ghost pred = |o: Order| order_is_for(o, completed.elev_idx);
    let mut r: Vec<Order> = Vec::new();
    let n = orders.len();
    let mut i: usize = 0;
    while i < n
        invariant
            n == orders@.len(),
            0 <= i <= n,
            pred == (|o: Order| order_is_for(o, completed.elev_idx)),
            r@ == orders@.take(i as int).filter(pred),
        decreases n - i,
    {
        let o = orders[i];
        if o.is_for(completed.elev_idx) {
            r.push(o);
        }
        assert(orders@.take(i + 1) =~= orders@.take(i as int).push(o));
        proof {
            orders@.take(i as int).lemma_filter_push(o, pred);
        }
        i = i + 1;
    }
    assert(orders@.take(n as int) =~= orders@);
    r
}


fn is_usable(positions: &HashMap<usize, Position>, i: usize) -> (b: bool)
    ensures
        b == usable(positions@, i),
{
    match positions.get(&i) {
        Some(p) => !p.obstruction,
        None => false,
    }
}

fn designate_busy_idle(
    alive_elevs: Vec<usize>,
    order_list: &OrderList,
    order: Order,
    positions: &HashMap<usize, Position>,
) -> (r: (Vec<usize>, Vec<usize>))
    ensures
        r.0@ == busy_elevs(alive_elevs@, order_list.current_view(), positions@),
        r.1@ == idle_elevs(alive_elevs@, order_list.current_view(), positions@, order),
{
    let ghost cur = order_list.current_view();
    let ghost pos = positions@;
    let ghost bpred = |i: usize| cur.contains_key(i) && usable(pos, i);
    let n = alive_elevs.len();
    let mut busy: Vec<usize> = Vec::new();
    let mut i: usize = 0;
    while i < n
        invariant
            n == alive_elevs@.len(),
            0 <= i <= n,
            cur == order_list.current_view(),
            pos == positions@,
            bpred == (|i: usize| cur.contains_key(i) && usable(pos, i)),
            busy@ == alive_elevs@.take(i as int).filter(bpred),
        decreases n - i,
    {
        let e = alive_elevs[i];
        if order_list.has_assignment(e) && is_usable(positions, e) {
            busy.push(e);
        }
        assert(alive_elevs@.take(i + 1) =~= alive_elevs@.take(i as int).push(e));
        proof {
            alive_elevs@.take(i as int).lemma_filter_push(e, bpred);
        }
        i = i + 1;
    }
    assert(alive_elevs@.take(n as int) =~= alive_elevs@);
    let ghost bseq = busy@;
    let ghost ipred = |i: usize| !bseq.contains(i) && order_is_for(order, i) && usable(pos, i);
    let mut idle: Vec<usize> = Vec::new();
    let mut i: usize = 0;
    while i < n
        invariant
            n == alive_elevs@.len(),
            0 <= i <= n,
            pos == positions@,
            bseq == busy@,
            ipred == (|i: usize| !bseq.contains(i) && order_is_for(order, i) && usable(pos, i)),
            idle@ == alive_elevs@.take(i as int).filter(ipred),
        decreases n - i,
    {
        let e = alive_elevs[i];
        if !contains_idx(&busy, e) && order.is_for(e) && is_usable(positions, e) {
            idle.push(e);
        }
        assert(alive_elevs@.take(i + 1) =~= alive_elevs@.take(i as int).push(e));
        proof {
            alive_elevs@.take(i as int).lemma_filter_push(e, ipred);
        }
        i = i + 1;
    }
    assert(alive_elevs@.take(n as int) =~= alive_elevs@);
    (busy, idle)
}

pub(crate) fn rebuild_queue(orders: &VecDeque<Order>, order: Order) -> (r: VecDeque<Order>)
    ensures
        r@ == rebuilt_queue(orders@, order),
{
    let ghost cab = |o: Order| o.cb.call == CallType::Cab;
    let ghost hall = |o: Order| o.cb.call != CallType::Cab;
    let n = orders.len();
    let mut cab_orders: VecDeque<Order> = VecDeque::new();
    let mut hall_orders: VecDeque<Order> = VecDeque::new();
    let mut i: usize = 0;
    while i < n
        invariant
            n == orders@.len(),
            0 <= i <= n,
            cab == (|o: Order| o.cb.call == CallType::Cab),
            hall == (|o: Order| o.cb.call != CallType::Cab),
            cab_orders@ == orders@.take(i as int).filter(cab),
            hall_orders@ == orders@.take(i as int).filter(hall),
        decreases n - i,
    {
        let o = orders[i];
        if matches!(o.cb.call, CallType::Cab) {
            cab_orders.push_back(o);
        } else {
            hall_orders.push_back(o);
        }
        assert(orders@.take(i + 1) =~= orders@.take(i as int).push(o));
        proof {
            orders@.take(i as int).lemma_filter_push(o, cab);
            orders@.take(i as int).lemma_filter_push(o, hall);
        }
        i = i + 1;
    }
    assert(orders@.take(n as int) =~= orders@);
    let mut new_orders: VecDeque<Order> = VecDeque::with_capacity(n);
    new_orders.append(&mut cab_orders);
    new_orders.append(&mut hall_orders);
    new_orders.push_back(order);
    new_orders
}

pub(crate) fn order_on_the_way(elev_idx: usize, position: u8, curr_order: Order, new_order: Order) -> (b: bool)
    ensures
        b == on_the_way(elev_idx, position, curr_order, new_order),
{
    let new_floor = new_order.cb.floor;
    let curr_floor = curr_order.cb.floor;
    let new_call = new_order.cb.call;
    let is_below = curr_floor <= new_floor && new_floor < position;
    let is_above = curr_floor >= new_floor && new_floor > position;
    let on_way_down = new_call == CallType::HallDown || new_call == CallType::Cab;
    let on_way_up = new_call == CallType::HallUp || new_call == CallType::Cab;
    (is_below && on_way_down && new_order.is_for(elev_idx)) || (is_above && on_way_up && new_order.is_for(
        elev_idx,
    ))
}

fn find_closest_elev(candidates: Vec<usize>, order: &Order, positions: &HashMap<usize, Position>) -> (r: Option<
    usize,
>)
    ensures
        r == closest_elev(candidates@, order.cb.floor, positions@),
{
    let n = candidates.len();
    let mut best: Option<usize> = None;
    let mut best_dist: u8 = 0;
    let mut i: usize = 0;
    while i < n
        invariant
            n == candidates@.len(),
            0 <= i <= n,
            best == closest_elev(candidates@.take(i as int), order.cb.floor, positions@),
            best matches Some(b) ==> positions@.contains_key(b) && best_dist == floor_dist(
                positions@[b].floor,
                order.cb.floor,
            ),
        decreases n - i,
    {
        let c = candidates[i];
        assert(candidates@.take(i + 1).drop_last() =~= candidates@.take(i as int));
        match positions.get(&c) {
            Some(p) => {
                let d = dist(p.floor, order.cb.floor);
                match best {
                    None => {
                        best = Some(c);
                        best_dist = d;
                    },
                    Some(_) => {
                        if d < best_dist {
                            best = Some(c);
                            best_dist = d;
                        }
                    },
                }
            },
            None => {},
        }
        i = i + 1;
    }
    assert(candidates@.take(n as int) =~= candidates@);
    best
}

fn pause_order(
    busy_elevs: Vec<usize>,
    order: &Order,
    order_list: &OrderList,
    positions: &HashMap<usize, Position>,
) -> (r: Option<(usize, Order)>)
    ensures
        r == first_pausable(busy_elevs@, *order, order_list.current_view(), positions@),
{
    let n = busy_elevs.len();
    let mut i: usize = 0;
    assert(busy_elevs@.skip(0) =~= busy_elevs@);
    while i < n
        invariant
            n == busy_elevs@.len(),
            0 <= i <= n,
            first_pausable(busy_elevs@, *order, order_list.current_view(), positions@) == first_pausable(
                busy_elevs@.skip(i as int),
                *order,
                order_list.current_view(),
                positions@,
            ),
        decreases n - i,
    {
        let idx = busy_elevs[i];
        assert(busy_elevs@.skip(i as int)[0] == idx);
        assert(busy_elevs@.skip(i as int).drop_first() =~= busy_elevs@.skip(i + 1));
        match order_list.current_order(idx) {
            Some(curr) => {
                match positions.get(&idx) {
                    Some(pos) => {
                        if order_on_the_way(idx, pos.floor, *curr, *order) {
                            return Some((idx, *curr));
                        }
                    },
                    None => {},
                }
            },
            None => {},
        }
        i = i + 1;
    }
    assert(busy_elevs@.skip(n as int) =~= Seq::<usize>::empty());
    None
}


pub(crate) fn find_closest_order_otw(target: Order, eligible: Vec<Order>, completed: Order) -> (r: Order)
    ensures
        r == closest_order_otw(target, eligible@, completed),
{
    let ghost p = on_the_way_test(completed, target);
    let n = eligible.len();
    let mut best: Option<Order> = None;
    let mut best_dist: u8 = 0;
    let mut i: usize = 0;
    while i < n
        invariant
            n == eligible@.len(),
            0 <= i <= n,
            p == on_the_way_test(completed, target),
            best == closest_order_where(eligible@.take(i as int), p, completed.cb.floor),
            best matches Some(b) ==> best_dist == floor_dist(b.cb.floor, completed.cb.floor),
        decreases n - i,
    {
        let o = eligible[i];
        assert(eligible@.take(i + 1).drop_last() =~= eligible@.take(i as int));
        if order_on_the_way(completed.elev_idx, completed.cb.floor, target, o) {
            let d = dist(completed.cb.floor, o.cb.floor);
            match best {
                None => {
                    best = Some(o);
                    best_dist = d;
                },
                Some(_) => {
                    if d < best_dist {
                        best = Some(o);
                        best_dist = d;
                    }
                },
            }
        }
        i = i + 1;
    }
    assert(eligible@.take(n as int) =~= eligible@);
    match best {
        Some(o) => o,
        None => target,
    }
}

fn opposite_hall(dir: CallType) -> (r: CallType)
    requires
        dir != CallType::Cab,
    ensures
        r == opposite(dir),
{
    match dir {
        CallType::HallUp => CallType::HallDown,
        _ => CallType::HallUp,
    }
}

pub(crate) fn copy_orders(s: &[Order]) -> (r: Vec<Order>)
    ensures
        r@ == s@,
{
    let mut r: Vec<Order> = Vec::new();
    let mut i: usize = 0;
    while i < s.len()
        invariant
            0 <= i <= s@.len(),
            r@ == s@.take(i as int),
        decreases s@.len() - i,
    {
        r.push(s[i]);
        assert(s@.take(i + 1) =~= s@.take(i as int).push(s@[i as int]));
        i = i + 1;
    }
    assert(s@.take(s@.len() as int) =~= s@);
    r
}

pub(crate) fn first_order(s: &[Order]) -> (r: Option<Order>)
    ensures
        r == first_of(s@),
{
    if s.len() == 0 {
        None
    } else {
        Some(s[0])
    }
}

pub(crate) fn resolve_hall_direction(result: &mut NextOrderResult, eligible: &[Order], completed: &Order)
    ensures
        (final(result).next, final(result).clear) == hall_update(
            (old(result).next, old(result).clear),
            eligible@,
            *completed,
        ),
{
    let dir = completed.cb.call;
    if let Some(cab) = find_cab_order(copy_orders(eligible), completed.cb.floor, dir) {
        result.next = Some(cab);
    } else {
        match should_change_direction(first_order(eligible), completed.cb.floor, dir) {
            Some(true) => {
                result.next = Some(
                    Order {
                        cb: CallButton { floor: completed.cb.floor, call: opposite_hall(dir) },
                        elev_idx: completed.elev_idx,
                    },
                );
            },
            Some(false) => {
                result.next = first_order(eligible);
                result.clear = Some(
                    Order { cb: CallButton { floor: completed.cb.floor, call: dir }, elev_idx: completed.elev_idx },
                );
            },
            None => {},
        }
    }
}

pub(crate) fn find_cab_order(orders: Vec<Order>, floor: u8, dir: CallType) -> (r: Option<Order>)
    ensures
        r == first_where(orders@, cab_beyond_test(floor, dir)),
{
    let ghost p = cab_beyond_test(floor, dir);
    let n = orders.len();
    let mut i: usize = 0;
    assert(orders@.skip(0) =~= orders@);
    while i < n
        invariant
            n == orders@.len(),
            0 <= i <= n,
            p == cab_beyond_test(floor, dir),
            first_where(orders@, p) == first_where(orders@.skip(i as int), p),
        decreases n - i,
    {
        let o = orders[i];
        assert(orders@.skip(i as int)[0] == o);
        assert(orders@.skip(i as int).drop_first() =~= orders@.skip(i + 1));
        let beyond = match dir {
            CallType::HallUp => o.cb.floor > floor,
            CallType::HallDown => o.cb.floor < floor,
            CallType::Cab => false,
        };
        if matches!(o.cb.call, CallType::Cab) && beyond {
            return Some(o);
        }
        i = i + 1;
    }
    assert(orders@.skip(n as int) =~= Seq::<Order>::empty());
    None
}

pub(crate) fn should_change_direction(order: Option<Order>, floor: u8, dir: CallType) -> (r: Option<bool>)
    ensures
        r == change_direction(order, floor, dir),
{
    let order = order?;
    Some(
        match dir {
            CallType::HallUp => order.cb.floor < floor,
            CallType::HallDown => order.cb.floor > floor,
            CallType::Cab => false,
        },
    )
}

pub(crate) fn copy_ids(s: &[usize]) -> (r: Vec<usize>)
    ensures
        r@ == s@,
{
    let mut r: Vec<usize> = Vec::new();
    let mut i: usize = 0;
    while i < s.len()
        invariant
            0 <= i <= s@.len(),
            r@ == s@.take(i as int),
        decreases s@.len() - i,
    {
        r.push(s[i]);
        assert(s@.take(i + 1) =~= s@.take(i as int).push(s@[i as int]));
        i = i + 1;
    }
    assert(s@.take(s@.len() as int) =~= s@);
    r
}

/// Assigns a newly requested order. A request that is already queued or
/// served is ignored. Otherwise the queue is rebuilt with cab orders first
/// and the order at the back; a busy elevator that passes the order on its
/// way takes it (its current order goes to the front of the queue), or else
/// the nearest idle elevator takes it. Obstructed elevators and elevators
/// without a known position take nothing. Returns the elevator that took it.
pub fn assign_new_order(
    order: Order,
    order_list: &mut OrderList,
    positions: &HashMap<usize, Position>,
    alive_elevs: &[usize],
) -> (r: Option<usize>)
    ensures
        (final(order_list).queue_view(), final(order_list).current_view(), r) == new_order_outcome(
            old(order_list).queue_view(),
            old(order_list).current_view(),
            positions@,
            alive_elevs@,
            order,
        ),
{
    if order_list.contains(&order) {
        return None;
    }
    let rebuilt = rebuild_queue(order_list.queue(), order);
    order_list.set_queue(rebuilt);
    let (busy_elevs, available_elevs) = designate_busy_idle(copy_ids(alive_elevs), order_list, order, positions);

    if let Some((elev_idx, paused_order)) = pause_order(busy_elevs, &order, order_list, positions) {
        order_list.push_front(paused_order);
        order_list.dequeue(&order);
        order_list.assign(elev_idx, order);
        return Some(elev_idx);
    }
    if let Some(closest) = find_closest_elev(available_elevs, &order, positions) {
        order_list.assign(closest, order);
        order_list.dequeue(&order);
        return Some(closest);
    }
    None
}

/// Picks the next order for the elevator that completed `completed`.
/// After a hall order it prefers a cab order further in the direction of
/// travel, turns around at the floor when the first eligible order lies
/// behind, or else takes the first eligible order (and clears the completed
/// hall call); after a cab order it takes the first eligible order and
/// clears the hall call at the floor in that order's direction. The choice
/// is then refined to the nearest eligible order on the way to it, taken
/// from the queue and recorded as the elevator's current order. The
/// returned next order is addressed to that elevator.
pub fn assign_next_order(completed: Order, order_list: &mut OrderList) -> (r: NextOrderResult)
    ensures
        r.clear == next_choice(old(order_list).queue_view(), completed).1,
        match next_assigned(old(order_list).queue_view(), completed) {
            None => {
                &&& r.next is None
                &&& final(order_list).queue_view() == old(order_list).queue_view()
                &&& final(order_list).current_view() == old(order_list).current_view()
            },
            Some(a) => {
                &&& r.next == Some(addressed_to(a, completed.elev_idx))
                &&& final(order_list).queue_view() == without_request(old(order_list).queue_view(), a)
                &&& final(order_list).current_view() == old(order_list).current_view().insert(
                    completed.elev_idx,
                    a,
                )
            },
        },
{
    let mut result = NextOrderResult { next: None, clear: None };
    let eligible = get_eligible_orders(order_list.queue(), completed);

    match completed.cb.call {
        CallType::Cab => {
            if eligible.len() > 0 {
                let order = eligible[0];
                if order.cb.floor > completed.cb.floor {
                    result.clear = Some(
                        Order {
                            cb: CallButton { floor: completed.cb.floor, call: CallType::HallUp },
                            elev_idx: completed.elev_idx,
                        },
                    );
                } else if order.cb.floor < completed.cb.floor {
                    result.clear = Some(
                        Order {
                            cb: CallButton { floor: completed.cb.floor, call: CallType::HallDown },
                            elev_idx: completed.elev_idx,
                        },
                    );
                }
                result.next = Some(order);
            }
        },
        _ => {
            resolve_hall_direction(&mut result, eligible.as_slice(), &completed);
        },
    }

    if let Some(first) = result.next {
        let order = find_closest_order_otw(first, eligible, completed);
        order_list.dequeue(&order);
        order_list.assign(completed.elev_idx, order);
        result.next = Some(Order { cb: order.cb, elev_idx: completed.elev_idx });
    }
    result
}

} // verus!

verus! {

/// The nearest-elevator choice picks a candidate with a known position that
/// is at least as near as every other such candidate; it picks nothing only
/// when no candidate has a known position.
pub proof fn lemma_closest_elev_is_nearest(cands: Seq<usize>, floor: u8, pos: Map<usize, Position>)
    ensures
        closest_elev(cands, floor, pos) is None <==> forall|j: int| 0 <= j < cands.len() ==> !pos.contains_key(
            #[trigger] cands[j],
        ),
        closest_elev(cands, floor, pos) matches Some(c) ==> {
            &&& cands.contains(c)
            &&& pos.contains_key(c)
            &&& forall|j: int|
                0 <= j < cands.len() && pos.contains_key(#[trigger] cands[j]) ==> floor_dist(pos[c].floor, floor)
                    <= floor_dist(pos[cands[j]].floor, floor)
        },
    decreases cands.len(),
{
    if cands.len() > 0 {
        let rest = cands.drop_last();
        lemma_closest_elev_is_nearest(rest, floor, pos);
        assert forall|j: int| 0 <= j < rest.len() implies rest[j] == cands[j] by {}
        if let Some(r) = closest_elev(rest, floor, pos) {
            let i = choose|i: int| 0 <= i < rest.len() && rest[i] == r;
            assert(cands[i] == r);
        }
        if let Some(c) = closest_elev(cands, floor, pos) {
            assert(cands[cands.len() - 1] == cands.last());
        }
    }
}

/// The pausing choice names a busy elevator that can put its current order
/// aside for the new order, together with that current order.
pub proof fn lemma_first_pausable_is_busy(
    busy: Seq<usize>,
    order: Order,
    current: Map<usize, Order>,
    pos: Map<usize, Position>,
)
    ensures
        first_pausable(busy, order, current, pos) matches Some((idx, paused)) ==> {
            &&& busy.contains(idx)
            &&& can_pause_for(idx, order, current, pos)
            &&& paused == current[idx]
        },
    decreases busy.len(),
{
    if busy.len() > 0 && !can_pause_for(busy[0], order, current, pos) {
        lemma_first_pausable_is_busy(busy.drop_first(), order, current, pos);
        if let Some((idx, _)) = first_pausable(busy, order, current, pos) {
            let i = choose|i: int| 0 <= i < busy.drop_first().len() && busy.drop_first()[i] == idx;
            assert(busy[i + 1] == idx);
        }
    } else if busy.len() > 0 {
        assert(busy[0] == busy[0]);
    }
}

/// An order is only ever given to an alive elevator whose position is known,
/// whose door is not obstructed and which may serve the order; that
/// elevator then serves it and no waiting order stands for its request.
pub proof fn lemma_new_order_goes_to_able_elevator(
    q: Seq<Order>,
    m: Map<usize, Order>,
    pos: Map<usize, Position>,
    alive: Seq<usize>,
    order: Order,
)
    ensures
        new_order_outcome(q, m, pos, alive, order).2 matches Some(i) ==> {
            &&& alive.contains(i)
            &&& usable(pos, i)
            &&& order_is_for(order, i)
            &&& new_order_outcome(q, m, pos, alive, order).1 == m.insert(i, order)
            &&& !crate::order_list::contains_request(
                new_order_outcome(q, m, pos, alive, order).0,
                Map::empty(),
                order,
            )
        },
{
    broadcast use vstd::seq_lib::group_filter_ensures;

    if !crate::order_list::contains_request(q, m, order) {
        let rq = rebuilt_queue(q, order);
        let busy = busy_elevs(alive, m, pos);
        let idle = idle_elevs(alive, m, pos, order);
        lemma_first_pausable_is_busy(busy, order, m, pos);
        lemma_closest_elev_is_nearest(idle, order.cb.floor, pos);
        let out = new_order_outcome(q, m, pos, alive, order).0;
        match first_pausable(busy, order, m, pos) {
            Some((idx, paused)) => {
                crate::order_list::lemma_dequeue_removes_request(seq![paused] + rq, order);
            },
            None => {
                crate::order_list::lemma_dequeue_removes_request(rq, order);
            },
        }
        let bpred = |i: usize| m.contains_key(i) && usable(pos, i);
        let ipred = |i: usize| !busy.contains(i) && order_is_for(order, i) && usable(pos, i);
        if let Some(i) = new_order_outcome(q, m, pos, alive, order).2 {
            match first_pausable(busy, order, m, pos) {
                Some((idx, paused)) => {
                    alive.lemma_filter_contains_rev(bpred, i);
                    let k = choose|k: int| 0 <= k < busy.len() && busy[k] == i;
                    alive.lemma_filter_pred(bpred, k);
                },
                None => {
                    alive.lemma_filter_contains_rev(ipred, i);
                    let k = choose|k: int| 0 <= k < idle.len() && idle[k] == i;
                    alive.lemma_filter_pred(ipred, k);
                },
            }
            assert(!crate::order_list::contains_request(out, Map::empty(), order));
        }
    }
}

/// The order chosen to follow a completed one is one that the completing
/// elevator may serve, and it is addressed to that elevator.
pub proof fn lemma_next_order_is_for_completing_elevator(q: Seq<Order>, completed: Order)
    ensures
        next_assigned(q, completed) matches Some(a) ==> order_is_for(a, completed.elev_idx),
{
    broadcast use vstd::seq_lib::group_filter_ensures;

    let eligible = eligible_orders(q, completed);
    let pe = |o: Order| order_is_for(o, completed.elev_idx);
    assert forall|i: int| 0 <= i < eligible.len() implies order_is_for(#[trigger] eligible[i], completed.elev_idx) by {
        q.lemma_filter_pred(pe, i);
    }
    lemma_first_where_in(eligible, cab_beyond_test(completed.cb.floor, completed.cb.call));
    if let Some(first) = next_choice(q, completed).0 {
        lemma_closest_order_where_in(eligible, on_the_way_test(completed, first), completed.cb.floor);
    }
}

/// The first order passing a test is an order of the sequence.
pub proof fn lemma_first_where_in(s: Seq<Order>, p: spec_fn(Order) -> bool)
    ensures
        first_where(s, p) matches Some(o) ==> s.contains(o) && p(o),
    decreases s.len(),
{
    if s.len() > 0 && !p(s[0]) {
        lemma_first_where_in(s.drop_first(), p);
        if let Some(o) = first_where(s, p) {
            let i = choose|i: int| 0 <= i < s.drop_first().len() && s.drop_first()[i] == o;
            assert(s[i + 1] == o);
        }
    } else if s.len() > 0 {
        assert(s[0] == s[0]);
    }
}

/// The nearest order passing a test is an order of the sequence that passes it.
pub proof fn lemma_closest_order_where_in(s: Seq<Order>, p: spec_fn(Order) -> bool, floor: u8)
    ensures
        closest_order_where(s, p, floor) matches Some(o) ==> s.contains(o) && p(o),
    decreases s.len(),
{
    if s.len() > 0 {
        let rest = s.drop_last();
        lemma_closest_order_where_in(rest, p, floor);
        if let Some(r) = closest_order_where(rest, p, floor) {
            let i = choose|i: int| 0 <= i < rest.len() && rest[i] == r;
            assert(s[i] == r);
        }
        assert(s[s.len() - 1] == s.last());
    }
}

/// In a rebuilt queue every cab order that was waiting comes before every
/// hall order that was waiting, and the new order is last.
pub proof fn lemma_rebuilt_queue_cab_first(q: Seq<Order>, order: Order)
    ensures
        ({
            let r = rebuilt_queue(q, order);
            let ncab = q.filter(|o: Order| o.cb.call == CallType::Cab).len();
            &&& r.len() == q.len() + 1
            &&& r.last() == order
            &&& forall|i: int| 0 <= i < ncab ==> (#[trigger] r[i]).cb.call == CallType::Cab
            &&& forall|i: int| ncab <= i < r.len() - 1 ==> (#[trigger] r[i]).cb.call != CallType::Cab
        }),
{
    broadcast use vstd::seq_lib::group_filter_ensures;

    let cab = |o: Order| o.cb.call == CallType::Cab;
    let hall = |o: Order| o.cb.call != CallType::Cab;
    let c = q.filter(cab);
    let h = q.filter(hall);
    let r = rebuilt_queue(q, order);
    assert forall|i: int| 0 <= i < c.len() implies (#[trigger] r[i]).cb.call == CallType::Cab by {
        q.lemma_filter_pred(cab, i);
    }
    assert forall|i: int| c.len() <= i < r.len() - 1 implies (#[trigger] r[i]).cb.call != CallType::Cab by {
        q.lemma_filter_pred(hall, i - c.len());
    }
    lemma_filter_partition_len(q);
}

/// Splitting a queue into its cab and its hall orders loses no order.
pub proof fn lemma_filter_partition_len(q: Seq<Order>)
    ensures
        q.filter(|o: Order| o.cb.call == CallType::Cab).len() + q.filter(|o: Order| o.cb.call != CallType::Cab).len()
            == q.len(),
    decreases q.len(),
{
    reveal(Seq::filter);
    if q.len() > 0 {
        lemma_filter_partition_len(q.drop_last());
    }
}

/// A busy elevator that can put its current order aside for `order` is
/// found by the pausing choice.
proof fn lemma_first_pausable_found(
    busy: Seq<usize>,
    order: Order,
    current: Map<usize, Order>,
    pos: Map<usize, Position>,
    e: usize,
)
    requires
        busy.contains(e),
        can_pause_for(e, order, current, pos),
    ensures
        first_pausable(busy, order, current, pos) is Some,
    decreases busy.len(),
{
    if !can_pause_for(busy[0], order, current, pos) {
        let k = choose|k: int| 0 <= k < busy.len() && busy[k] == e;
        assert(k > 0);
        assert(busy.drop_first()[k - 1] == e);
        lemma_first_pausable_found(busy.drop_first(), order, current, pos, e);
    }
}

/// A new request is taken by a busy elevator that passes it: when an alive
/// elevator `e` with a known position and an unobstructed door serves an
/// order and, on its way down from its position to its order's floor
/// (inclusive), passes the floor of a hall-down request or of its own cab
/// request, or on its way up passes the floor of a hall-up request or of its
/// own cab request, then the request goes to a busy elevator (not
/// necessarily `e`) that passes it in the same way.
pub proof fn lemma_busy_elevator_takes_call_on_its_way(
    q: Seq<Order>,
    m: Map<usize, Order>,
    pos: Map<usize, Position>,
    alive: Seq<usize>,
    order: Order,
    e: usize,
)
    requires
        !crate::order_list::contains_request(q, m, order),
        alive.contains(e),
        m.contains_key(e),
        pos.contains_key(e),
        !pos[e].obstruction,
        ({
            let own_cab = order.cb.call == CallType::Cab && order.elev_idx == e;
            ||| m[e].cb.floor <= order.cb.floor < pos[e].floor && (order.cb.call == CallType::HallDown || own_cab)
            ||| m[e].cb.floor >= order.cb.floor > pos[e].floor && (order.cb.call == CallType::HallUp || own_cab)
        }),
    ensures
        new_order_outcome(q, m, pos, alive, order).2 matches Some(i) && {
            let own_cab = order.cb.call == CallType::Cab && order.elev_idx == i;
            &&& alive.contains(i)
            &&& m.contains_key(i)
            &&& pos.contains_key(i)
            &&& (m[i].cb.floor <= order.cb.floor < pos[i].floor && (order.cb.call == CallType::HallDown || own_cab)
                || m[i].cb.floor >= order.cb.floor > pos[i].floor && (order.cb.call == CallType::HallUp || own_cab))
        },
{
    broadcast use vstd::seq_lib::group_filter_ensures;

    let busy = busy_elevs(alive, m, pos);
    let bpred = |i: usize| m.contains_key(i) && usable(pos, i);
    let k = choose|k: int| 0 <= k < alive.len() && alive[k] == e;
    alive.lemma_filter_contains(bpred, k);
    assert(can_pause_for(e, order, m, pos));
    lemma_first_pausable_found(busy, order, m, pos, e);
    lemma_first_pausable_is_busy(busy, order, m, pos);
    if let Some((idx, paused)) = first_pausable(busy, order, m, pos) {
        let j = choose|j: int| 0 <= j < busy.len() && busy[j] == idx;
        alive.lemma_filter_pred(bpred, j);
        assert(new_order_outcome(q, m, pos, alive, order).2 == Some(idx));
    }
    lemma_busy_elevator_takes_only_calls_on_its_way(q, m, pos, alive, order);
}

/// A busy elevator is only ever given a new request that it passes on its
/// way: down from its position to its order's floor (inclusive) for a
/// hall-down request or its own cab request, up for a hall-up request or its
/// own cab request. Its current order is put aside at the front of the queue.
pub proof fn lemma_busy_elevator_takes_only_calls_on_its_way(
    q: Seq<Order>,
    m: Map<usize, Order>,
    pos: Map<usize, Position>,
    alive: Seq<usize>,
    order: Order,
)
    ensures
        new_order_outcome(q, m, pos, alive, order).2 matches Some(i) ==> m.contains_key(i) ==> {
            let own_cab = order.cb.call == CallType::Cab && order.elev_idx == i;
            &&& alive.contains(i)
            &&& pos.contains_key(i)
            &&& (m[i].cb.floor <= order.cb.floor < pos[i].floor && (order.cb.call == CallType::HallDown || own_cab)
                || m[i].cb.floor >= order.cb.floor > pos[i].floor && (order.cb.call == CallType::HallUp || own_cab))
            &&& new_order_outcome(q, m, pos, alive, order).0.len() > 0
            &&& new_order_outcome(q, m, pos, alive, order).0[0] == m[i]
        },
{
    broadcast use vstd::seq_lib::group_filter_ensures;

    if !crate::order_list::contains_request(q, m, order) {
        let busy = busy_elevs(alive, m, pos);
        let idle = idle_elevs(alive, m, pos, order);
        let rq = rebuilt_queue(q, order);
        let bpred = |i: usize| m.contains_key(i) && usable(pos, i);
        let ipred = |i: usize| !busy.contains(i) && order_is_for(order, i) && usable(pos, i);
        lemma_first_pausable_is_busy(busy, order, m, pos);
        lemma_closest_elev_is_nearest(idle, order.cb.floor, pos);
        if let Some(i) = new_order_outcome(q, m, pos, alive, order).2 {
            if m.contains_key(i) {
                match first_pausable(busy, order, m, pos) {
                    Some((idx, paused)) => {
                        alive.lemma_filter_contains_rev(bpred, i);
                        assert(paused == m[i]);
                        assert(!crate::order_list::same_request(m[i], order));
                        rq.lemma_filter_prepend(paused, crate::order_list::differs_from_request(order));
                    },
                    None => {
                        let k = choose|k: int| 0 <= k < idle.len() && idle[k] == i;
                        alive.lemma_filter_pred(ipred, k);
                        alive.lemma_filter_contains_rev(ipred, i);
                        let j = choose|j: int| 0 <= j < alive.len() && alive[j] == i;
                        alive.lemma_filter_contains(bpred, j);
                        assert(false);
                    },
                }
            }
        }
    }
}

/// An order of the sequence that passes a test makes the first-match search succeed.
proof fn lemma_first_where_found(s: Seq<Order>, p: spec_fn(Order) -> bool, x: Order)
    requires
        s.contains(x),
        p(x),
    ensures
        first_where(s, p) is Some,
    decreases s.len(),
{
    if !p(s[0]) {
        let k = choose|k: int| 0 <= k < s.len() && s[k] == x;
        assert(k > 0);
        assert(s.drop_first()[k - 1] == x);
        lemma_first_where_found(s.drop_first(), p, x);
    }
}

/// After a hall-up (hall-down) call is completed at floor `f`, a queued cab
/// order of the same elevator above (below) `f` keeps the elevator going:
/// the next order chosen is such a cab order, no hall call is cleared along
/// with it, and the order finally given lies strictly above (below) `f`.
pub proof fn lemma_cab_call_ahead_comes_next(q: Seq<Order>, completed: Order, j: int)
    requires
        completed.cb.call == CallType::HallUp || completed.cb.call == CallType::HallDown,
        0 <= j < q.len(),
        q[j].cb.call == CallType::Cab,
        q[j].elev_idx == completed.elev_idx,
        completed.cb.call == CallType::HallUp ==> q[j].cb.floor > completed.cb.floor,
        completed.cb.call == CallType::HallDown ==> q[j].cb.floor < completed.cb.floor,
    ensures
        next_choice(q, completed).0 matches Some(o) && {
            &&& o.cb.call == CallType::Cab
            &&& o.elev_idx == completed.elev_idx
            &&& q.contains(o)
            &&& completed.cb.call == CallType::HallUp ==> o.cb.floor > completed.cb.floor
            &&& completed.cb.call == CallType::HallDown ==> o.cb.floor < completed.cb.floor
        },
        next_choice(q, completed).1 is None,
        next_assigned(q, completed) matches Some(a) && {
            &&& completed.cb.call == CallType::HallUp ==> a.cb.floor > completed.cb.floor
            &&& completed.cb.call == CallType::HallDown ==> a.cb.floor < completed.cb.floor
        },
{
    broadcast use vstd::seq_lib::group_filter_ensures;

    let floor = completed.cb.floor;
    let dir = completed.cb.call;
    let e = eligible_orders(q, completed);
    let pe = |o: Order| order_is_for(o, completed.elev_idx);
    q.lemma_filter_contains(pe, j);
    let p = cab_beyond_test(floor, dir);
    assert(p(q[j]));
    lemma_first_where_found(e, p, q[j]);
    lemma_first_where_in(e, p);
    let o = first_where(e, p).unwrap();
    let k = choose|k: int| 0 <= k < e.len() && e[k] == o;
    q.lemma_filter_pred(pe, k);
    q.lemma_filter_contains_rev(pe, o);
    assert(next_choice(q, completed) == (Some(o), None::<Order>));
    lemma_closest_order_where_in(e, on_the_way_test(completed, o), floor);
}

/// After a cab call is completed at floor `f`, the next order chosen is the
/// first queued order that the elevator may serve; when it lies above `f`
/// the hall-up call at `f` is cleared with it, when it lies below `f` the
/// hall-down call at `f`, and at `f` itself none: the cleared hall call
/// points the way the elevator goes.
pub proof fn lemma_cab_completion_clears_call_ahead(q: Seq<Order>, completed: Order)
    requires
        completed.cb.call == CallType::Cab,
        eligible_orders(q, completed).len() > 0,
    ensures
        ({
            let first = eligible_orders(q, completed)[0];
            &&& next_choice(q, completed).0 == Some(first)
            &&& order_is_for(first, completed.elev_idx)
            &&& (next_choice(q, completed).1 is Some <==> first.cb.floor != completed.cb.floor)
            &&& next_choice(q, completed).1 matches Some(c) ==> {
                &&& c.cb.floor == completed.cb.floor
                &&& c.elev_idx == completed.elev_idx
                &&& (c.cb.call == CallType::HallUp <==> first.cb.floor > completed.cb.floor)
                &&& (c.cb.call == CallType::HallDown <==> first.cb.floor < completed.cb.floor)
            }
        }),
{
    broadcast use vstd::seq_lib::group_filter_ensures;

    q.lemma_filter_pred(|o: Order| order_is_for(o, completed.elev_idx), 0);
}

/// After a hall call is completed, a next order is chosen exactly when the
/// elevator may serve some queued order, and the only hall call ever cleared
/// along with it is the completed call itself.
pub proof fn lemma_hall_completion_clears_only_itself(q: Seq<Order>, completed: Order)
    requires
        completed.cb.call == CallType::HallUp || completed.cb.call == CallType::HallDown,
    ensures
        next_choice(q, completed).0 is Some <==> eligible_orders(q, completed).len() > 0,
        next_choice(q, completed).1 matches Some(c) ==> c.cb == completed.cb && c.elev_idx == completed.elev_idx,
{
    lemma_first_where_in(
        eligible_orders(q, completed),
        cab_beyond_test(completed.cb.floor, completed.cb.call),
    );
}

/// The nearest-order search picks an order passing the test that is at
/// least as near to `floor` as every order passing it, and picks nothing
/// only when no order passes.
pub proof fn lemma_closest_order_is_nearest(s: Seq<Order>, p: spec_fn(Order) -> bool, floor: u8)
    ensures
        closest_order_where(s, p, floor) is None <==> forall|j: int| 0 <= j < s.len() ==> !p(#[trigger] s[j]),
        closest_order_where(s, p, floor) matches Some(o) ==> forall|j: int|
            0 <= j < s.len() && p(#[trigger] s[j]) ==> floor_dist(o.cb.floor, floor) <= floor_dist(
                s[j].cb.floor,
                floor,
            ),
    decreases s.len(),
{
    if s.len() > 0 {
        let rest = s.drop_last();
        lemma_closest_order_is_nearest(rest, p, floor);
        assert forall|j: int| 0 <= j < rest.len() implies rest[j] == s[j] by {}
        assert(s[s.len() - 1] == s.last());
    }
}

/// After a hall call is completed at floor `f` with no cab order of the
/// elevator beyond `f` in the direction of travel: when the first order the
/// elevator may serve lies behind `f`, the elevator turns around at `f` (the
/// opposite hall call at `f` is next and nothing is cleared); otherwise that
/// first order is next and the completed hall call is cleared with it.
pub proof fn lemma_hall_completion_turns_only_for_orders_behind(q: Seq<Order>, completed: Order)
    requires
        completed.cb.call == CallType::HallUp || completed.cb.call == CallType::HallDown,
        eligible_orders(q, completed).len() > 0,
        forall|j: int|
            0 <= j < eligible_orders(q, completed).len() && (#[trigger] eligible_orders(q, completed)[j]).cb.call
                == CallType::Cab ==> {
                &&& completed.cb.call == CallType::HallUp ==> eligible_orders(q, completed)[j].cb.floor
                    <= completed.cb.floor
                &&& completed.cb.call == CallType::HallDown ==> eligible_orders(q, completed)[j].cb.floor
                    >= completed.cb.floor
            },
    ensures
        ({
            let first = eligible_orders(q, completed)[0];
            let f = completed.cb.floor;
            let behind = if completed.cb.call == CallType::HallUp {
                first.cb.floor < f
            } else {
                first.cb.floor > f
            };
            let back = if completed.cb.call == CallType::HallUp {
                CallType::HallDown
            } else {
                CallType::HallUp
            };
            &&& behind ==> next_choice(q, completed) == (
                Some(Order { cb: CallButton { floor: f, call: back }, elev_idx: completed.elev_idx }),
                None::<Order>,
            )
            &&& !behind ==> next_choice(q, completed) == (
                Some(first),
                Some(Order { cb: completed.cb, elev_idx: completed.elev_idx }),
            )
        }),
{
    let e = eligible_orders(q, completed);
    let p = cab_beyond_test(completed.cb.floor, completed.cb.call);
    lemma_first_where_in(e, p);
    if let Some(o) = first_where(e, p) {
        let k = choose|k: int| 0 <= k < e.len() && e[k] == o;
        assert(!cab_beyond(e[k], completed.cb.floor, completed.cb.call));
    }
}

} // verus!
