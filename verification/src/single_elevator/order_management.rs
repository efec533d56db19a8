use vstd::prelude::*;

use std::collections::VecDeque;

use super::{CallButton, NUM_ELEVATORS};

verus! {

/// A call button press and the elevator that registered it.
#[derive(Debug, Clone, Copy, PartialEq, Eq, Structural)]
pub struct Order {
    pub cb: CallButton,
    pub elev_idx: usize,
}

/// Whether an elevator at `position` heading for `curr_order` passes the
/// floor of `new_order` going its way: a hall call in the same direction
/// (unless the current order is a hall call the other way), or the
/// elevator's own cab call.
pub open spec fn on_the_way(elev_idx: usize, position: u8, curr_order: Order, new_order: Order) -> bool {
    let new_call = new_order.cb.call;
    let new_floor = new_order.cb.floor;
    let curr_call = curr_order.cb.call;
    let curr_floor = curr_order.cb.floor;
    let is_below = curr_floor <= new_floor && new_floor < position;
    let is_above = curr_floor >= new_floor && new_floor > position;
    (is_below && ((new_call == 1 && curr_call != 0) || (new_call == 2 && elev_idx == new_order.elev_idx))) || (
    is_above && ((new_call == 0 && curr_call != 1) || (new_call == 2 && elev_idx == new_order.elev_idx)))
}

fn order_on_the_way(elev_idx: usize, position: u8, curr_order: Order, new_order: Order) -> (b: bool)
    ensures
        b == on_the_way(elev_idx, position, curr_order, new_order),
{
    let new_call = new_order.cb.call;
    let new_elev_idx = new_order.elev_idx;
    let new_floor = new_order.cb.floor;
    let curr_call = curr_order.cb.call;
    let curr_floor = curr_order.cb.floor;
    let is_below = curr_floor <= new_floor && new_floor < position;
    let is_above = curr_floor >= new_floor && new_floor > position;
    (is_below && ((new_call == 1 && curr_call != 0) || (new_call == 2 && elev_idx == new_elev_idx))) || (is_above
        && ((new_call == 0 && curr_call != 1) || (new_call == 2 && elev_idx == new_elev_idx)))
}

/// The cab orders (code 2) of `q`, then the others, each group in order.
pub open spec fn cab_first(q: Seq<Order>) -> Seq<Order> {
    q.filter(|o: Order| o.cb.call == 2) + q.filter(|o: Order| o.cb.call != 2)
}

/// The distance between two floors.
pub open spec fn floor_dist(a: u8, b: u8) -> int {
    if a > b {
        a - b
    } else {
        b - a
    }
}

/// The first elevator of `elevs` that has the new order on its way, if any.
pub open spec fn first_on_the_way(
    elevs: Seq<usize>,
    positions: Seq<Option<u8>>,
    current: Seq<Option<Order>>,
    order: Order,
) -> Option<usize>
    decreases elevs.len(),
{
    if elevs.len() == 0 {
        None
    } else {
        let e = elevs[0];
        if on_the_way(e, positions[e as int]->0, current[e as int]->0, order) {
            Some(e)
        } else {
            first_on_the_way(elevs.drop_first(), positions, current, order)
        }
    }
}

/// The first of `elevs` nearest to `floor`, among those nearer than `limit` floors.
pub open spec fn nearest_within(elevs: Seq<usize>, positions: Seq<Option<u8>>, floor: u8, limit: int) -> Option<
    usize,
>
    decreases elevs.len(),
{
    if elevs.len() == 0 {
        None
    } else {
        let e = elevs[0];
        let d = floor_dist(positions[e as int]->0, floor);
        if d < limit {
            match nearest_within(elevs.drop_first(), positions, floor, d) {
                Some(r) => Some(r),
                None => Some(e),
            }
        } else {
            nearest_within(elevs.drop_first(), positions, floor, limit)
        }
    }
}

/// The first free elevator of `elevs` at the least distance from `floor`
/// (distances between floors are below 256).
pub open spec fn nearest_free(elevs: Seq<usize>, positions: Seq<Option<u8>>, floor: u8) -> Option<usize> {
    nearest_within(elevs, positions, floor, 256)
}

/// What assigning a new order does to (queue, current orders) and which
/// elevator it names. The queue is rebuilt with cab orders first; when it
/// already holds the order, nothing more happens. Otherwise the order is
/// queued at the back; a working elevator that has it on its way takes it
/// (its current order goes to the front of the queue and the order leaves
/// the queue), or else the nearest free elevator takes it.
pub open spec fn new_orders_outcome(
    q: Seq<Order>,
    positions: Seq<Option<u8>>,
    current: Seq<Option<Order>>,
    alive: Seq<usize>,
    order: Order,
) -> (Seq<Order>, Seq<Option<Order>>, Option<usize>) {
    let rq = cab_first(q);
    if rq.contains(order) {
        (rq, current, None)
    } else {
        let q1 = rq.push(order);
        let working = alive.filter(|i: usize| current[i as int] is Some);
        let free = alive.filter(|i: usize| !working.contains(i));
        match first_on_the_way(working, positions, current, order) {
            Some(e) => (
                dropped(seq![current[e as int]->0] + q1, order),
                current.update(e as int, Some(order)),
                Some(e),
            ),
            None => match nearest_free(free, positions, order.cb.floor) {
                Some(c) => (q1, current.update(c as int, Some(order)), Some(c)),
                None => (q1, current, None),
            },
        }
    }
}

/// Whether `q` holds `o`.
fn queue_contains(q: &VecDeque<Order>, o: Order) -> (b: bool)
    ensures
        b == q@.contains(o),
{
    let mut i: usize = 0;
    while i < q.len()
        invariant
            0 <= i <= q@.len(),
            forall|j: int| 0 <= j < i ==> q@[j] != o,
        decreases q@.len() - i,
    {
        if q[i] == o {
            assert(q@[i as int] == o);
            return true;
        }
        i = i + 1;
    }
    false
}

fn copy_queue(q: &VecDeque<Order>) -> (r: Vec<Order>)
    ensures
        r@ == q@,
{
    let mut r: Vec<Order> = Vec::new();
    let mut i: usize = 0;
    while i < q.len()
        invariant
            0 <= i <= q@.len(),
            r@ == q@.take(i as int),
        decreases q@.len() - i,
    {
        r.push(q[i]);
        assert(q@.take(i + 1) =~= q@.take(i as int).push(q@[i as int]));
        i = i + 1;
    }
    assert(q@.take(q@.len() as int) =~= q@);
    r
}

fn contains_idx(v: &Vec<usize>, x: usize) -> (b: bool)
    ensures
        b == v@.contains(x),
{
    let mut i: usize = 0;
    while i < v.len()
        invariant
            0 <= i <= v.len(),
            forall|j: int| 0 <= j < i ==> v@[j] != x,
        decreases v.len() - i,
    {
        if v[i] == x {
            return true;
        }
        i = i + 1;
    }
    false
}

/// Assigns a new order. The queue is first rebuilt with cab orders in
/// front; when it already holds the order, nothing is assigned. Else the
/// order is queued at the back; a working elevator that passes it on the
/// way to its current order takes it, the current order returning to the
/// front of the queue and the order leaving it, or else the nearest free
/// elevator takes it. Every alive elevator needs a position and a slot in
/// the current orders.
pub fn assign_new_orders(
    order: Order,
    orders: &mut VecDeque<Order>,
    positions: &Vec<Option<u8>>,
    current_orders: &mut Vec<Option<Order>>,
    alive_elevs: &Vec<usize>,
) -> (r: Option<usize>)
    requires
        forall|j: int|
            0 <= j < alive_elevs@.len() ==> {
                &&& #[trigger] alive_elevs@[j] < positions@.len()
                &&& positions@[alive_elevs@[j] as int] is Some
                &&& alive_elevs@[j] < old(current_orders)@.len()
            },
    ensures
        final(current_orders)@.len() == old(current_orders)@.len(),
        (final(orders)@, final(current_orders)@, r) == new_orders_outcome(
            old(orders)@,
            positions@,
            old(current_orders)@,
            alive_elevs@,
            order,
        ),
{
    let ghost q0 = orders@;
    let ghost cur0 = current_orders@;
    // rebuild the queue with the cab orders at the front
    let items = copy_queue(orders);
    let ghost cab = |o: Order| o.cb.call == 2;
    let ghost other = |o: Order| o.cb.call != 2;
    let mut cab_orders: VecDeque<Order> = VecDeque::new();
    let mut other_orders: VecDeque<Order> = VecDeque::new();
    let mut i: usize = 0;
    while i < items.len()
        invariant
            0 <= i <= items@.len(),
            cab == (|o: Order| o.cb.call == 2),
            other == (|o: Order| o.cb.call != 2),
            cab_orders@ == items@.take(i as int).filter(cab),
            other_orders@ == items@.take(i as int).filter(other),
        decreases items@.len() - i,
    {
        let o = items[i];
        if o.cb.call == 2 {
            cab_orders.push_back(o);
        } else {
            other_orders.push_back(o);
        }
        assert(items@.take(i + 1) =~= items@.take(i as int).push(o));
        proof {
            items@.take(i as int).lemma_filter_push(o, cab);
            items@.take(i as int).lemma_filter_push(o, other);
        }
        i = i + 1;
    }
    assert(items@.take(items@.len() as int) =~= items@);
    orders.clear();
    orders.append(&mut cab_orders);
    orders.append(&mut other_orders);
    assert(orders@ =~= cab_first(q0));

    // an order already queued is left as it is
    if queue_contains(orders, order) {
        return None;
    } else {
        orders.push_back(order);
    }
    let ghost q1 = orders@;

    // working and free elevators
    let ghost wpred = |i: usize| cur0[i as int] is Some;
    let mut working_elevs: Vec<usize> = Vec::new();
    let n = alive_elevs.len();
    let mut i: usize = 0;
    while i < n
        invariant
            n == alive_elevs@.len(),
            0 <= i <= n,
            current_orders@ == cur0,
            wpred == (|i: usize| cur0[i as int] is Some),
            working_elevs@ == alive_elevs@.take(i as int).filter(wpred),
            forall|j: int| 0 <= j < alive_elevs@.len() ==> #[trigger] alive_elevs@[j] < cur0.len(),
        decreases n - i,
    {
        let e = alive_elevs[i];
        if current_orders[e].is_some() {
            working_elevs.push(e);
        }
        assert(alive_elevs@.take(i + 1) =~= alive_elevs@.take(i as int).push(e));
        proof {
            alive_elevs@.take(i as int).lemma_filter_push(e, wpred);
        }
        i = i + 1;
    }
    assert(alive_elevs@.take(n as int) =~= alive_elevs@);
    let ghost wseq = working_elevs@;
    let ghost fpred = |i: usize| !wseq.contains(i);
    let mut free_elevs: Vec<usize> = Vec::new();
    let mut i: usize = 0;
    while i < n
        invariant
            n == alive_elevs@.len(),
            0 <= i <= n,
            wseq == working_elevs@,
            fpred == (|i: usize| !wseq.contains(i)),
            free_elevs@ == alive_elevs@.take(i as int).filter(fpred),
        decreases n - i,
    {
        let e = alive_elevs[i];
        if !contains_idx(&working_elevs, e) {
            free_elevs.push(e);
        }
        assert(alive_elevs@.take(i + 1) =~= alive_elevs@.take(i as int).push(e));
        proof {
            alive_elevs@.take(i as int).lemma_filter_push(e, fpred);
        }
        i = i + 1;
    }
    assert(alive_elevs@.take(n as int) =~= alive_elevs@);

    proof {
        broadcast use vstd::seq_lib::group_filter_ensures;
        assert forall|j: int| 0 <= j < working_elevs@.len() implies {
            &&& #[trigger] working_elevs@[j] < positions@.len()
            &&& positions@[working_elevs@[j] as int] is Some
            &&& working_elevs@[j] < cur0.len()
            &&& cur0[working_elevs@[j] as int] is Some
        } by {
            alive_elevs@.lemma_filter_contains_rev(wpred, working_elevs@[j]);
            alive_elevs@.lemma_filter_pred(wpred, j);
        }
        assert forall|j: int| 0 <= j < free_elevs@.len() implies {
            &&& #[trigger] free_elevs@[j] < positions@.len()
            &&& positions@[free_elevs@[j] as int] is Some
            &&& free_elevs@[j] < cur0.len()
        } by {
            alive_elevs@.lemma_filter_contains_rev(fpred, free_elevs@[j]);
        }
    }

    // a working elevator that passes the order on its way takes it
    let nw = working_elevs.len();
    let mut k: usize = 0;
    assert(working_elevs@.skip(0) =~= working_elevs@);
    while k < nw
        invariant
            nw == working_elevs@.len(),
            0 <= k <= nw,
            current_orders@ == cur0,
            orders@ == q1,
            q1 == cab_first(q0).push(order),
            !cab_first(q0).contains(order),
            q0 == old(orders)@,
            cur0 == old(current_orders)@,
            wpred == (|i: usize| cur0[i as int] is Some),
            working_elevs@ == alive_elevs@.filter(wpred),
            forall|j: int|
                0 <= j < working_elevs@.len() ==> {
                    &&& #[trigger] working_elevs@[j] < positions@.len()
                    &&& positions@[working_elevs@[j] as int] is Some
                    &&& working_elevs@[j] < cur0.len()
                    &&& cur0[working_elevs@[j] as int] is Some
                },
            first_on_the_way(working_elevs@, positions@, cur0, order) == first_on_the_way(
                working_elevs@.skip(k as int),
                positions@,
                cur0,
                order,
            ),
        decreases nw - k,
    {
        let elev_idx = working_elevs[k];
        assert(working_elevs@.skip(k as int)[0] == elev_idx);
        assert(working_elevs@.skip(k as int).drop_first() =~= working_elevs@.skip(k + 1));
        let curr_order = current_orders[elev_idx].unwrap();
        let pos = positions[elev_idx].unwrap();
        if order_on_the_way(elev_idx, pos, curr_order, order) {
            let demoted = current_orders[elev_idx].unwrap();
            orders.push_front(demoted);
            assert(orders@ =~= seq![cur0[elev_idx as int]->0] + q1);
            // drop the promoted order from the queue
            drop_order(orders, order);
            assert(first_on_the_way(working_elevs@, positions@, cur0, order) == Some(elev_idx));
            current_orders.set(elev_idx, Some(order));
            assert(current_orders@ =~= cur0.update(elev_idx as int, Some(order)));
            return Some(elev_idx);
        }
        k = k + 1;
    }
    assert(working_elevs@.skip(nw as int) =~= Seq::<usize>::empty());

    // else the nearest free elevator takes it
    let nf = free_elevs.len();
    let mut closest_elev: Option<usize> = None;
    let mut closest_distance: u16 = 256;
    assert(free_elevs@.skip(0) =~= free_elevs@);
    let mut k: usize = 0;
    while k < nf
        invariant
            nf == free_elevs@.len(),
            0 <= k <= nf,
            current_orders@ == cur0,
            orders@ == q1,
            closest_distance <= 256,
            forall|j: int|
                0 <= j < free_elevs@.len() ==> {
                    &&& #[trigger] free_elevs@[j] < positions@.len()
                    &&& positions@[free_elevs@[j] as int] is Some
                    &&& free_elevs@[j] < cur0.len()
                },
            nearest_free(free_elevs@, positions@, order.cb.floor) == match nearest_within(
                free_elevs@.skip(k as int),
                positions@,
                order.cb.floor,
                closest_distance as int,
            ) {
                Some(r) => Some(r),
                None => closest_elev,
            },
            closest_elev matches Some(c) ==> c < cur0.len(),
        decreases nf - k,
    {
        let elev_idx = free_elevs[k];
        assert(free_elevs@.skip(k as int)[0] == elev_idx);
        assert(free_elevs@.skip(k as int).drop_first() =~= free_elevs@.skip(k + 1));
        let p = positions[elev_idx].unwrap();
        let f = order.cb.floor;
        let d: u16 = if p > f {
            (p - f) as u16
        } else {
            (f - p) as u16
        };
        if d < closest_distance {
            closest_distance = d;
            closest_elev = Some(elev_idx);
        }
        k = k + 1;
    }
    assert(free_elevs@.skip(nf as int) =~= Seq::<usize>::empty());
    match closest_elev {
        Some(c) => {
            current_orders.set(c, Some(order));
            assert(current_orders@ =~= cur0.update(c as int, Some(order)));
            Some(c)
        },
        None => None,
    }
}


/// The first order of `s` that passes `p`.
pub open spec fn first_match(s: Seq<Order>, p: spec_fn(Order) -> bool) -> Option<Order>
    decreases s.len(),
{
    if s.len() == 0 {
        None
    } else if p(s[0]) {
        Some(s[0])
    } else {
        first_match(s.drop_first(), p)
    }
}

/// The orders of the queue that the elevator of `completed` may serve:
/// hall orders and its own cab orders.
pub open spec fn eligible(q: Seq<Order>, completed: Order) -> Seq<Order> {
    q.filter(|item: Order| item.cb.call != 2 || item.elev_idx == completed.elev_idx)
}

/// The order at `floor` with call code `call` of elevator `elev_idx`.
pub open spec fn order_at(floor: u8, call: u8, elev_idx: usize) -> Order {
    Order { cb: CallButton { floor, call }, elev_idx }
}

/// Test: above `floor` and not a hall-down call.
pub open spec fn above_not_down(floor: u8) -> spec_fn(Order) -> bool {
    |item: Order| item.cb.floor > floor && item.cb.call != 1
}

/// Test: a hall-down call above `floor`.
pub open spec fn above_down(floor: u8) -> spec_fn(Order) -> bool {
    |item: Order| item.cb.floor > floor && item.cb.call == 1
}

/// Test: below `floor` and not a hall-up call.
pub open spec fn below_not_up(floor: u8) -> spec_fn(Order) -> bool {
    |item: Order| item.cb.floor < floor && item.cb.call != 0
}

/// Test: a hall-up call below `floor`.
pub open spec fn below_up(floor: u8) -> spec_fn(Order) -> bool {
    |item: Order| item.cb.floor < floor && item.cb.call == 0
}

/// After `order` is completed: (next order, order to clear, queue after).
/// After a hall-up call the first eligible order above that is not a
/// hall-down call is next, else the first hall-down call above; failing
/// that the elevator turns around: the hall-down call at the floor is next
/// and the hall-up call is cleared. After a hall-down call it is the mirror
/// image. After any other call the first queued order is taken from
/// the queue, and the hall call at the floor in its direction is cleared.
pub open spec fn next_outcome(q: Seq<Order>, order: Order) -> (Option<Order>, Option<Order>, Seq<Order>) {
    let e = eligible(q, order);
    let floor = order.cb.floor;
    if order.cb.call == 0 {
        match first_match(e, above_not_down(floor)) {
            Some(x) => (Some(x), None, q),
            None => match first_match(e, above_down(floor)) {
                Some(x) => (Some(x), None, q),
                None => (Some(order_at(floor, 1, order.elev_idx)), Some(order_at(floor, 0, order.elev_idx)), q),
            },
        }
    } else if order.cb.call == 1 {
        match first_match(e, below_not_up(floor)) {
            Some(x) => (Some(x), None, q),
            None => match first_match(e, below_up(floor)) {
                Some(x) => (Some(x), None, q),
                None => (Some(order_at(floor, 0, order.elev_idx)), Some(order_at(floor, 1, order.elev_idx)), q),
            },
        }
    } else {
        let first = q[0];
        let clear = if floor < first.cb.floor {
            Some(order_at(floor, 0, order.elev_idx))
        } else if floor > first.cb.floor {
            Some(order_at(floor, 1, order.elev_idx))
        } else {
            None
        };
        (Some(first), clear, q.drop_first())
    }
}

fn find_first(s: &Vec<Order>, floor: u8, kind: u8) -> (r: Option<Order>)
    requires
        kind < 4,
    ensures
        kind == 0 ==> r == first_match(s@, above_not_down(floor)),
        kind == 1 ==> r == first_match(s@, above_down(floor)),
        kind == 2 ==> r == first_match(s@, below_not_up(floor)),
        kind == 3 ==> r == first_match(s@, below_up(floor)),
{
    let ghost p = if kind == 0 {
        above_not_down(floor)
    } else if kind == 1 {
        above_down(floor)
    } else if kind == 2 {
        below_not_up(floor)
    } else {
        below_up(floor)
    };
    let n = s.len();
    let mut i: usize = 0;
    assert(s@.skip(0) =~= s@);
    while i < n
        invariant
            n == s@.len(),
            0 <= i <= n,
            p == (if kind == 0 {
                above_not_down(floor)
            } else if kind == 1 {
                above_down(floor)
            } else if kind == 2 {
                below_not_up(floor)
            } else {
                below_up(floor)
            }),
            first_match(s@, p) == first_match(s@.skip(i as int), p),
        decreases n - i,
    {
        let item = s[i];
        assert(s@.skip(i as int)[0] == item);
        assert(s@.skip(i as int).drop_first() =~= s@.skip(i + 1));
        let hit = if kind == 0 {
            item.cb.floor > floor && item.cb.call != 1
        } else if kind == 1 {
            item.cb.floor > floor && item.cb.call == 1
        } else if kind == 2 {
            item.cb.floor < floor && item.cb.call != 0
        } else {
            item.cb.floor < floor && item.cb.call == 0
        };
        if hit {
            return Some(item);
        }
        i = i + 1;
    }
    assert(s@.skip(n as int) =~= Seq::<Order>::empty());
    None
}

/// Picks the next order for the elevator that completed `order` (see
/// `next_outcome`) and records it as the current order in the first slot,
/// that of the controller's own elevator. A completed call other than a
/// hall call needs a queued order; there must be a first slot.
pub fn assign_next_order(order: Order, orders: &mut VecDeque<Order>, current_orders: &mut Vec<Option<Order>>) -> (r: (
    Option<Order>,
    Option<Order>,
))
    requires
        old(current_orders)@.len() > 0,
        order.cb.call != 0 && order.cb.call != 1 ==> old(orders)@.len() > 0,
    ensures
        (r.0, r.1, final(orders)@) == next_outcome(old(orders)@, order),
        final(current_orders)@ == old(current_orders)@.update(0, r.0),
{
    let ghost q0 = orders@;
    let ghost ep = |item: Order| item.cb.call != 2 || item.elev_idx == order.elev_idx;
    let mut eligible_orders: Vec<Order> = Vec::new();
    let n = orders.len();
    let mut i: usize = 0;
    while i < n
        invariant
            n == orders@.len(),
            0 <= i <= n,
            orders@ == q0,
            ep == (|item: Order| item.cb.call != 2 || item.elev_idx == order.elev_idx),
            eligible_orders@ == q0.take(i as int).filter(ep),
        decreases n - i,
    {
        let item = orders[i];
        if item.cb.call != 2 || item.elev_idx == order.elev_idx {
            eligible_orders.push(item);
        }
        assert(q0.take(i + 1) =~= q0.take(i as int).push(item));
        proof {
            q0.take(i as int).lemma_filter_push(item, ep);
        }
        i = i + 1;
    }
    assert(q0.take(n as int) =~= q0);
    let floor = order.cb.floor;
    let found: (Option<Order>, Option<Order>) = if order.cb.call == 0 {
        match find_first(&eligible_orders, floor, 0) {
            Some(x) => (Some(x), None),
            None => match find_first(&eligible_orders, floor, 1) {
                Some(x) => (Some(x), None),
                None => (
                    Some(Order { cb: CallButton { floor, call: 1 }, elev_idx: order.elev_idx }),
                    Some(Order { cb: CallButton { floor, call: 0 }, elev_idx: order.elev_idx }),
                ),
            },
        }
    } else if order.cb.call == 1 {
        match find_first(&eligible_orders, floor, 2) {
            Some(x) => (Some(x), None),
            None => match find_first(&eligible_orders, floor, 3) {
                Some(x) => (Some(x), None),
                None => (
                    Some(Order { cb: CallButton { floor, call: 0 }, elev_idx: order.elev_idx }),
                    Some(Order { cb: CallButton { floor, call: 1 }, elev_idx: order.elev_idx }),
                ),
            },
        }
    } else {
        let first = orders.pop_front().unwrap();
        let clear = if floor < first.cb.floor {
            Some(Order { cb: CallButton { floor, call: 0 }, elev_idx: order.elev_idx })
        } else if floor > first.cb.floor {
            Some(Order { cb: CallButton { floor, call: 1 }, elev_idx: order.elev_idx })
        } else {
            None
        };
        assert(orders@ =~= q0.drop_first());
        (Some(first), clear)
    };
    current_orders.set(0, found.0);
    found
}

/// The test for an order other than `o`.
pub open spec fn other_than(o: Order) -> spec_fn(Order) -> bool {
    |x: Order| x != o
}

/// `q` without the orders equal to `o`.
pub open spec fn dropped(q: Seq<Order>, o: Order) -> Seq<Order> {
    q.filter(other_than(o))
}

/// The elevators below `n` whose position is known, in increasing order.
pub open spec fn alive_of(positions: Seq<Option<u8>>, n: nat) -> Seq<usize> {
    Seq::new(n, |i: int| i as usize).filter(|i: usize| positions[i as int] is Some)
}

/// Takes out of `orders` every order equal to `o`.
fn drop_order(orders: &mut VecDeque<Order>, o: Order)
    ensures
        final(orders)@ == dropped(old(orders)@, o),
{
    let ghost q0 = orders@;
    let ghost pred = other_than(o);
    let items = copy_queue(orders);
    let mut kept: VecDeque<Order> = VecDeque::new();
    let mut i: usize = 0;
    proof {
        assert(q0.take(0).filter(pred) =~= Seq::<Order>::empty()) by {
            reveal(Seq::filter);
        }
    }
    while i < items.len()
        invariant
            items@ == q0,
            pred == other_than(o),
            0 <= i <= items@.len(),
            kept@ == q0.take(i as int).filter(pred),
        decreases items@.len() - i,
    {
        let x = items[i];
        proof {
            assert(q0.take(i + 1) =~= q0.take(i as int).push(x));
            q0.take(i as int).lemma_filter_push(x, pred);
        }
        if x != o {
            kept.push_back(x);
        }
        i = i + 1;
    }
    assert(q0.take(q0.len() as int) =~= q0);
    *orders = kept;
}

/// What the order runner asks the rest of the single-elevator controller to do.
#[derive(Debug, Clone, Copy, PartialEq, Eq, Structural)]
pub enum FloorAction {
    /// Turn the light of an order on or off.
    Light(Order, bool),
    /// Send an elevator to an order.
    Command(Order),
}

/// The result of a new order: the state after it and the actions.
pub open spec fn new_order_step(
    q: Seq<Order>,
    current: Seq<Option<Order>>,
    positions: Seq<Option<u8>>,
    order: Order,
) -> (Seq<Order>, Seq<Option<Order>>, Seq<FloorAction>) {
    let out = new_orders_outcome(q, positions, current, alive_of(positions, NUM_ELEVATORS as nat), order);
    let lit = seq![FloorAction::Light(order, true)];
    match out.2 {
        Some(idx) => (out.0, out.1, lit.push(FloorAction::Command(Order { cb: order.cb, elev_idx: idx }))),
        None => (out.0, out.1, lit),
    }
}

/// The result of an elevator reaching the floor of `order`: the order and
/// its light are cleared; with orders left, the elevator's next order is
/// picked, the hall call served along with it is cleared, and the order is
/// assigned again, naming the elevator that takes it or else the next order.
pub open spec fn done_step(
    q: Seq<Order>,
    current: Seq<Option<Order>>,
    positions: Seq<Option<u8>>,
    order: Order,
) -> (Seq<Order>, Seq<Option<Order>>, Seq<FloorAction>) {
    let q1 = if order.cb.call != 2 {
        dropped(q, order)
    } else {
        q
    };
    let a1 = if order.cb.call != 2 {
        seq![FloorAction::Light(order, false)]
    } else {
        seq![]
    };
    let q2 = dropped(q1, order);
    let c1 = current.update(order.elev_idx as int, None);
    let a2 = a1.push(FloorAction::Light(order, false));
    if q2.len() == 0 {
        (q2, c1, a2)
    } else {
        let nx = next_outcome(q2, order);
        let c2 = c1.update(0, nx.0);
        let q4 = match nx.1 {
            Some(c) => dropped(nx.2, c),
            None => nx.2,
        };
        let a3 = match nx.1 {
            Some(c) => a2.push(FloorAction::Light(c, false)),
            None => a2,
        };
        match nx.0 {
            None => (q4, c2, a3),
            Some(next) => {
                let out = new_orders_outcome(q4, positions, c2, alive_of(positions, NUM_ELEVATORS as nat), order);
                let target = match out.2 {
                    Some(idx) => Order { cb: order.cb, elev_idx: idx },
                    None => next,
                };
                (out.0, out.1, a3.push(FloorAction::Command(target)))
            },
        }
    }
}

/// The orders of the single-elevator controller: the queue, the current
/// order of each elevator, and their last known positions.
pub struct FloorOrders {
    orders: VecDeque<Order>,
    current: Vec<Option<Order>>,
    positions: Vec<Option<u8>>,
}

/// The elevators whose position is known, in increasing order.
fn alive_elevs(positions: &Vec<Option<u8>>) -> (r: Vec<usize>)
    requires
        positions@.len() >= NUM_ELEVATORS,
    ensures
        r@ == alive_of(positions@, NUM_ELEVATORS as nat),
        forall|j: int| 0 <= j < r@.len() ==> #[trigger] r@[j] < NUM_ELEVATORS && positions@[r@[j] as int] is Some,
{
    let ghost all = Seq::new(NUM_ELEVATORS as nat, |i: int| i as usize);
    let ghost pred = |i: usize| positions@[i as int] is Some;
    let mut out: Vec<usize> = Vec::new();
    let mut i: usize = 0;
    proof {
        assert(all.take(0).filter(pred) =~= Seq::<usize>::empty()) by {
            reveal(Seq::filter);
        }
    }
    while i < NUM_ELEVATORS as usize
        invariant
            positions@.len() >= NUM_ELEVATORS,
            all == Seq::new(NUM_ELEVATORS as nat, |i: int| i as usize),
            pred == (|i: usize| positions@[i as int] is Some),
            0 <= i <= NUM_ELEVATORS,
            out@ == all.take(i as int).filter(pred),
            forall|j: int| 0 <= j < out@.len() ==> #[trigger] out@[j] < i && positions@[out@[j] as int] is Some,
        decreases NUM_ELEVATORS - i,
    {
        proof {
            assert(all[i as int] == i);
            assert(all.take(i + 1) =~= all.take(i as int).push(i));
            all.take(i as int).lemma_filter_push(i, pred);
        }
        if positions[i].is_some() {
            out.push(i);
        }
        i = i + 1;
    }
    assert(all.take(NUM_ELEVATORS as int) =~= all);
    out
}

impl FloorOrders {
    /// The queue.
    pub closed spec fn queue_view(&self) -> Seq<Order> {
        self.orders@
    }

    /// The current order of each elevator.
    pub closed spec fn current_view(&self) -> Seq<Option<Order>> {
        self.current@
    }

    /// The last known positions.
    pub closed spec fn positions_view(&self) -> Seq<Option<u8>> {
        self.positions@
    }

    /// The shape every state has: a current order slot per elevator and a
    /// position slot for at least each elevator.
    pub open spec fn well_formed(&self) -> bool {
        &&& self.current_view().len() == NUM_ELEVATORS
        &&& self.positions_view().len() >= NUM_ELEVATORS
    }

    /// No orders, and no elevator seen yet.
    pub fn new() -> (s: Self)
        ensures
            s.well_formed(),
            s.queue_view() == Seq::<Order>::empty(),
            forall|i: int| 0 <= i < NUM_ELEVATORS ==> #[trigger] s.current_view()[i] is None,
            forall|i: int| 0 <= i < NUM_ELEVATORS ==> #[trigger] s.positions_view()[i] is None,
    {
        let mut current: Vec<Option<Order>> = Vec::new();
        let mut positions: Vec<Option<u8>> = Vec::new();
        let mut i: usize = 0;
        while i < NUM_ELEVATORS as usize
            invariant
                0 <= i <= NUM_ELEVATORS,
                current@.len() == i,
                positions@.len() == i,
                forall|k: int| 0 <= k < i ==> #[trigger] current@[k] is None,
                forall|k: int| 0 <= k < i ==> #[trigger] positions@[k] is None,
            decreases NUM_ELEVATORS - i,
        {
            current.push(None);
            positions.push(None);
            i = i + 1;
        }
        FloorOrders { orders: VecDeque::new(), current, positions }
    }

    /// A new order, with the positions the elevators report now (at
    /// least one per elevator): its light goes on, and it is assigned (see
    /// `new_orders_outcome`), an elevator that takes it being sent to it.
    pub fn on_new_order(&mut self, order: Order, positions: Vec<Option<u8>>) -> (r: Vec<FloorAction>)
        requires
            old(self).well_formed(),
            positions@.len() >= NUM_ELEVATORS,
        ensures
            final(self).well_formed(),
            final(self).positions_view() == positions@,
            (final(self).queue_view(), final(self).current_view(), r@) == new_order_step(
                old(self).queue_view(),
                old(self).current_view(),
                positions@,
                order,
            ),
    {
        let mut acts: Vec<FloorAction> = Vec::new();
        acts.push(FloorAction::Light(order, true));
        self.positions = positions;
        let alive = alive_elevs(&self.positions);
        let found = assign_new_orders(order, &mut self.orders, &self.positions, &mut self.current, &alive);
        match found {
            Some(idx) => {
                acts.push(FloorAction::Command(Order { cb: order.cb, elev_idx: idx }));
            },
            None => {},
        }
        let ghost want = new_order_step(old(self).queue_view(), old(self).current_view(), positions@, order);
        assert(acts@ =~= want.2);
        acts
    }

    /// Elevator `order.elev_idx` reached the floor of `order`, with the
    /// positions the elevators report now (see `done_step`).
    pub fn on_order_done(&mut self, order: Order, positions: Vec<Option<u8>>) -> (r: Vec<FloorAction>)
        requires
            old(self).well_formed(),
            positions@.len() >= NUM_ELEVATORS,
            order.elev_idx < NUM_ELEVATORS,
        ensures
            final(self).well_formed(),
            final(self).positions_view() == positions@,
            (final(self).queue_view(), final(self).current_view(), r@) == done_step(
                old(self).queue_view(),
                old(self).current_view(),
                positions@,
                order,
            ),
    {
        let mut acts: Vec<FloorAction> = Vec::new();
        if order.cb.call != 2 {
            drop_order(&mut self.orders, order);
            acts.push(FloorAction::Light(order, false));
        }
        drop_order(&mut self.orders, order);
        self.current.set(order.elev_idx, None);
        acts.push(FloorAction::Light(order, false));
        self.positions = positions;
        let alive = alive_elevs(&self.positions);
        if self.orders.len() > 0 {
            let (next_order, clear_call) = assign_next_order(order, &mut self.orders, &mut self.current);
            match clear_call {
                Some(c) => {
                    drop_order(&mut self.orders, c);
                    acts.push(FloorAction::Light(c, false));
                },
                None => {},
            }
            match next_order {
                Some(next) => {
                    let found = assign_new_orders(order, &mut self.orders, &self.positions, &mut self.current, &alive);
                    let target = match found {
                        Some(idx) => Order { cb: order.cb, elev_idx: idx },
                        None => next,
                    };
                    acts.push(FloorAction::Command(target));
                },
                None => {},
            }
        }
        let ghost want = done_step(old(self).queue_view(), old(self).current_view(), positions@, order);
        assert(acts@ =~= want.2);
        acts
    }
}

/// After a call other than a hall call is completed at floor `f`, the next
/// order is the first queued one and leaves the queue; when it lies above
/// `f` the call cleared with it is the hall-up call (code 0) at `f`, when it
/// lies below `f` the hall-down call (code 1) at `f`, and at `f` itself no
/// call is cleared: the cleared call points the way the elevator goes.
pub proof fn lemma_cleared_call_follows_travel(q: Seq<Order>, order: Order)
    requires
        order.cb.call != 0,
        order.cb.call != 1,
        q.len() > 0,
    ensures
        next_outcome(q, order).0 == Some(q[0]),
        next_outcome(q, order).2 == q.drop_first(),
        next_outcome(q, order).1 is Some <==> q[0].cb.floor != order.cb.floor,
        next_outcome(q, order).1 matches Some(c) ==> {
            &&& c.cb.floor == order.cb.floor
            &&& c.elev_idx == order.elev_idx
            &&& (c.cb.call == 0 <==> q[0].cb.floor > order.cb.floor)
            &&& (c.cb.call == 1 <==> q[0].cb.floor < order.cb.floor)
        },
{
}

/// The elevator found on the way is one of the candidates and has the order on its way.
proof fn lemma_first_on_the_way_in(
    elevs: Seq<usize>,
    positions: Seq<Option<u8>>,
    current: Seq<Option<Order>>,
    order: Order,
)
    ensures
        first_on_the_way(elevs, positions, current, order) matches Some(e) ==> elevs.contains(e) && on_the_way(
            e,
            positions[e as int]->0,
            current[e as int]->0,
            order,
        ),
    decreases elevs.len(),
{
    if elevs.len() > 0 {
        if !on_the_way(elevs[0], positions[elevs[0] as int]->0, current[elevs[0] as int]->0, order) {
            lemma_first_on_the_way_in(elevs.drop_first(), positions, current, order);
            if let Some(e) = first_on_the_way(elevs, positions, current, order) {
                let k = choose|k: int| 0 <= k < elevs.drop_first().len() && elevs.drop_first()[k] == e;
                assert(elevs[k + 1] == e);
            }
        } else {
            assert(elevs[0] == elevs[0]);
        }
    }
}

/// A candidate that has the order on its way makes the search succeed.
proof fn lemma_first_on_the_way_found(
    elevs: Seq<usize>,
    positions: Seq<Option<u8>>,
    current: Seq<Option<Order>>,
    order: Order,
    e: usize,
)
    requires
        elevs.contains(e),
        on_the_way(e, positions[e as int]->0, current[e as int]->0, order),
    ensures
        first_on_the_way(elevs, positions, current, order) is Some,
    decreases elevs.len(),
{
    if !on_the_way(elevs[0], positions[elevs[0] as int]->0, current[elevs[0] as int]->0, order) {
        let k = choose|k: int| 0 <= k < elevs.len() && elevs[k] == e;
        assert(k > 0);
        assert(elevs.drop_first()[k - 1] == e);
        lemma_first_on_the_way_found(elevs.drop_first(), positions, current, order, e);
    }
}

/// An elevator that is working on an order is only given a new order that
/// it passes: going down from its position to its order's floor
/// (inclusive), a hall-down call (code 1) unless its order is a hall-up
/// call, or its own cab call (code 2); going up, a hall-up call (code 0)
/// unless its order is a hall-down call, or its own cab call. When some
/// alive working elevator passes a new order in this way, a working
/// elevator takes it.
pub proof fn lemma_working_elevator_takes_only_passing_orders(
    q: Seq<Order>,
    positions: Seq<Option<u8>>,
    current: Seq<Option<Order>>,
    alive: Seq<usize>,
    order: Order,
    e: usize,
)
    ensures
        new_orders_outcome(q, positions, current, alive, order).2 matches Some(i) ==> current[i as int] is Some ==> {
            let cur = current[i as int]->0;
            let at = positions[i as int]->0;
            let own_cab = order.cb.call == 2 && order.elev_idx == i;
            ||| cur.cb.floor <= order.cb.floor < at && (order.cb.call == 1 && cur.cb.call != 0 || own_cab)
            ||| cur.cb.floor >= order.cb.floor > at && (order.cb.call == 0 && cur.cb.call != 1 || own_cab)
        },
        ({
            let cur = current[e as int]->0;
            let at = positions[e as int]->0;
            let own_cab = order.cb.call == 2 && order.elev_idx == e;
            &&& !cab_first(q).contains(order)
            &&& alive.contains(e)
            &&& current[e as int] is Some
            &&& (cur.cb.floor <= order.cb.floor < at && (order.cb.call == 1 && cur.cb.call != 0 || own_cab)
                || cur.cb.floor >= order.cb.floor > at && (order.cb.call == 0 && cur.cb.call != 1 || own_cab))
        }) ==> (new_orders_outcome(q, positions, current, alive, order).2 matches Some(i) && current[i as int] is Some),
{
    broadcast use vstd::seq_lib::group_filter_ensures;

    let rq = cab_first(q);
    if !rq.contains(order) {
        let wpred = |i: usize| current[i as int] is Some;
        let working = alive.filter(wpred);
        let fpred = |i: usize| !working.contains(i);
        let free = alive.filter(fpred);
        lemma_first_on_the_way_in(working, positions, current, order);
        lemma_nearest_within_is_nearest(free, positions, order.cb.floor, 256);
        match first_on_the_way(working, positions, current, order) {
            Some(w) => {
                let k = choose|k: int| 0 <= k < working.len() && working[k] == w;
                alive.lemma_filter_pred(wpred, k);
            },
            None => {
                if let Some(c) = nearest_free(free, positions, order.cb.floor) {
                    let k = choose|k: int| 0 <= k < free.len() && free[k] == c;
                    alive.lemma_filter_pred(fpred, k);
                    alive.lemma_filter_contains_rev(fpred, c);
                    if current[c as int] is Some {
                        let j = choose|j: int| 0 <= j < alive.len() && alive[j] == c;
                        alive.lemma_filter_contains(wpred, j);
                    }
                }
                if alive.contains(e) && current[e as int] is Some {
                    let j = choose|j: int| 0 <= j < alive.len() && alive[j] == e;
                    alive.lemma_filter_contains(wpred, j);
                    if on_the_way(e, positions[e as int]->0, current[e as int]->0, order) {
                        lemma_first_on_the_way_found(working, positions, current, order, e);
                    }
                }
            },
        }
    }
}

/// The first match is an order of the sequence that passes the test.
proof fn lemma_first_match_in(s: Seq<Order>, p: spec_fn(Order) -> bool)
    ensures
        first_match(s, p) matches Some(o) ==> s.contains(o) && p(o),
    decreases s.len(),
{
    if s.len() > 0 && !p(s[0]) {
        lemma_first_match_in(s.drop_first(), p);
        if let Some(o) = first_match(s, p) {
            let i = choose|i: int| 0 <= i < s.drop_first().len() && s.drop_first()[i] == o;
            assert(s[i + 1] == o);
        }
    } else if s.len() > 0 {
        assert(s[0] == s[0]);
    }
}

/// An order of the sequence that passes the test makes the search succeed.
proof fn lemma_first_match_found(s: Seq<Order>, p: spec_fn(Order) -> bool, x: Order)
    requires
        s.contains(x),
        p(x),
    ensures
        first_match(s, p) is Some,
    decreases s.len(),
{
    if !p(s[0]) {
        let k = choose|k: int| 0 <= k < s.len() && s[k] == x;
        assert(k > 0);
        assert(s.drop_first()[k - 1] == x);
        lemma_first_match_found(s.drop_first(), p, x);
    }
}

/// After a hall call is completed at floor `f` the queue is left as it
/// is, and the elevator keeps its direction while it can: the next order
/// lies beyond `f` in the direction of the completed call (above after a
/// hall-up call, below after a hall-down call), and there is one whenever
/// the elevator may serve some queued order beyond `f` (order `j`, when it
/// is one). Only when nothing lies beyond does it turn around: the opposite
/// hall call at `f` is next and the completed call is cleared.
pub proof fn lemma_hall_completion_keeps_direction(q: Seq<Order>, order: Order, j: int)
    requires
        order.cb.call == 0 || order.cb.call == 1,
    ensures
        next_outcome(q, order).2 == q,
        next_outcome(q, order).0 matches Some(x) && {
            let f = order.cb.floor;
            let back = if order.cb.call == 0 {
                1u8
            } else {
                0u8
            };
            ||| order.cb.call == 0 && x.cb.floor > f && next_outcome(q, order).1 is None
            ||| order.cb.call == 1 && x.cb.floor < f && next_outcome(q, order).1 is None
            ||| x == Order { cb: CallButton { floor: f, call: back }, elev_idx: order.elev_idx }
                && next_outcome(q, order).1 == Some(Order { cb: order.cb, elev_idx: order.elev_idx })
        },
        ({
            &&& 0 <= j < q.len()
            &&& q[j].cb.call != 2 || q[j].elev_idx == order.elev_idx
            &&& order.cb.call == 0 ==> q[j].cb.floor > order.cb.floor
            &&& order.cb.call == 1 ==> q[j].cb.floor < order.cb.floor
        }) ==> next_outcome(q, order).1 is None,
{
    broadcast use vstd::seq_lib::group_filter_ensures;

    let e = eligible(q, order);
    let f = order.cb.floor;
    let ep = |item: Order| item.cb.call != 2 || item.elev_idx == order.elev_idx;
    lemma_first_match_in(e, above_not_down(f));
    lemma_first_match_in(e, above_down(f));
    lemma_first_match_in(e, below_not_up(f));
    lemma_first_match_in(e, below_up(f));
    if 0 <= j < q.len() && (q[j].cb.call != 2 || q[j].elev_idx == order.elev_idx) {
        q.lemma_filter_contains(ep, j);
        let x = q[j];
        if order.cb.call == 0 && x.cb.floor > f {
            if x.cb.call != 1 {
                lemma_first_match_found(e, above_not_down(f), x);
            } else {
                lemma_first_match_found(e, above_down(f), x);
            }
        }
        if order.cb.call == 1 && x.cb.floor < f {
            if x.cb.call != 0 {
                lemma_first_match_found(e, below_not_up(f), x);
            } else {
                lemma_first_match_found(e, below_up(f), x);
            }
        }
    }
}

/// The nearest search within a limit picks a candidate nearer than the
/// limit and at least as near as every candidate, and picks nothing only
/// when no candidate is nearer than the limit.
pub proof fn lemma_nearest_within_is_nearest(elevs: Seq<usize>, positions: Seq<Option<u8>>, floor: u8, limit: int)
    ensures
        nearest_within(elevs, positions, floor, limit) is None <==> forall|j: int|
            0 <= j < elevs.len() ==> floor_dist(positions[#[trigger] elevs[j] as int]->0, floor) >= limit,
        nearest_within(elevs, positions, floor, limit) matches Some(e) ==> {
            &&& elevs.contains(e)
            &&& floor_dist(positions[e as int]->0, floor) < limit
            &&& forall|j: int|
                0 <= j < elevs.len() ==> floor_dist(positions[e as int]->0, floor) <= floor_dist(
                    positions[#[trigger] elevs[j] as int]->0,
                    floor,
                )
        },
    decreases elevs.len(),
{
    if elevs.len() > 0 {
        let rest = elevs.drop_first();
        let d = floor_dist(positions[elevs[0] as int]->0, floor);
        let next_limit = if d < limit {
            d
        } else {
            limit
        };
        lemma_nearest_within_is_nearest(rest, positions, floor, next_limit);
        assert forall|j: int| 0 <= j < rest.len() implies rest[j] == elevs[j + 1] by {}
        if let Some(e) = nearest_within(rest, positions, floor, next_limit) {
            let k = choose|k: int| 0 <= k < rest.len() && rest[k] == e;
            assert(elevs[k + 1] == e);
        }
        assert(elevs[0] == elevs[0]);
        assert forall|j: int| 0 < j < elevs.len() implies elevs[j] == rest[j - 1] by {}
    }
}

} // verus!
