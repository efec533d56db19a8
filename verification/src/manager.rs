use vstd::prelude::*;

use std::collections::HashMap;

use crate::assignment::{
    addressed_to, assign_new_order, assign_next_order, new_order_outcome, next_assigned, next_choice,
};
use crate::elevio::{CallButton, CallType};
use crate::membership::{
    id_set, is_least, is_least_of_set, lists_set, not_in_set, MembershipChange,
    MembershipState,
};
use crate::msg::{clone_orders, clone_states, Msg, MsgView};
use crate::order::{order_is_for, Event, EventView, Order, Role};
use crate::order_list::{enqueued, lists_values, without_order, without_request, OrderList};
use crate::types::{ElevatorCommand, ElevatorEvent, ElevatorState, Position};

verus! {

broadcast use vstd::std_specs::hash::group_hash_axioms;

/// What the order manager asks the rest of the node to do.
pub enum ManagerAction {
    /// Hand a message to the network task.
    Send(Msg),
    /// Hand a command to the elevator driver.
    Command(ElevatorCommand),
    /// Restart the order watchdog of an elevator.
    ResetOrderWatchdog(usize),
    /// Stop the order watchdog of an elevator.
    RemoveOrderWatchdog(usize),
    /// Restart the idle watchdog of an elevator.
    ResetIdleWatchdog(usize),
    /// Stop the idle watchdog of an elevator.
    RemoveIdleWatchdog(usize),
}

/// An action with its message seen through its view.
pub enum ActionView {
    Send(MsgView),
    Command(ElevatorCommand),
    ResetOrderWatchdog(usize),
    RemoveOrderWatchdog(usize),
    ResetIdleWatchdog(usize),
    RemoveIdleWatchdog(usize),
}

impl View for ManagerAction {
    type V = ActionView;

    open spec fn view(&self) -> ActionView {
        match self {
            ManagerAction::Send(m) => ActionView::Send(m@),
            ManagerAction::Command(c) => ActionView::Command(*c),
            ManagerAction::ResetOrderWatchdog(i) => ActionView::ResetOrderWatchdog(*i),
            ManagerAction::RemoveOrderWatchdog(i) => ActionView::RemoveOrderWatchdog(*i),
            ManagerAction::ResetIdleWatchdog(i) => ActionView::ResetIdleWatchdog(*i),
            ManagerAction::RemoveIdleWatchdog(i) => ActionView::RemoveIdleWatchdog(*i),
        }
    }
}

/// The views of a list of actions.
pub open spec fn views(a: Seq<ManagerAction>) -> Seq<ActionView> {
    a.map_values(|x: ManagerAction| x@)
}

/// The state of the order manager as a mathematical value.
pub struct ManagerView {
    pub queue: Seq<Order>,
    pub current: Map<usize, Order>,
    pub alive: Set<usize>,
    pub alive_listing: Seq<usize>,
    pub role: Role,
    pub ready: bool,
    pub positions: Map<usize, Position>,
    pub local_id: u8,
    pub local_idx: usize,
}

/// Nondeterministic outcomes that the state machine cannot fix in advance:
/// the order in which the new set of alive elevators hands them out, and
/// the order in which the current orders and the positions are listed when
/// they are shared with elevators that joined.
pub struct Choices {
    pub alive_listing: Seq<usize>,
    pub listed_orders: Seq<Order>,
    pub listed_states: Seq<ElevatorState>,
}

/// `s` with a new queue and new current orders.
pub open spec fn with_lists(s: ManagerView, q: Seq<Order>, m: Map<usize, Order>) -> ManagerView {
    ManagerView { queue: q, current: m, ..s }
}

/// The cab order at `floor` of elevator `elev_idx`, used to ask for work for an idle elevator.
pub open spec fn pseudo_cab(floor: u8, elev_idx: usize) -> Order {
    Order { cb: CallButton { floor, call: CallType::Cab }, elev_idx }
}

/// Turning the light of `order` on or off, when this node shows that order.
pub open spec fn light_if_mine(s: ManagerView, order: Order, on: bool) -> Seq<ActionView> {
    if order_is_for(order, s.local_idx) {
        seq![ActionView::Command(ElevatorCommand::SetLight(order.cb, on))]
    } else {
        seq![]
    }
}

/// Giving `next` to its elevator after `completed`: both elevators' order
/// watchdogs restart, the next order is recorded, its elevator's idle
/// watchdog stops, and the order goes to the local driver or over the network.
pub open spec fn send_order_spec(s: ManagerView, completed: Order, next: Option<Order>) -> (ManagerView, Seq<ActionView>) {
    let a0 = seq![ActionView::ResetOrderWatchdog(completed.elev_idx)];
    match next {
        None => (s, a0),
        Some(n) => (
            with_lists(s, s.queue, s.current.insert(n.elev_idx, n)),
            a0 + seq![
                ActionView::ResetOrderWatchdog(n.elev_idx),
                ActionView::RemoveIdleWatchdog(n.elev_idx),
                if n.elev_idx == s.local_idx {
                    ActionView::Command(ElevatorCommand::AssignOrder(n.cb))
                } else {
                    ActionView::Send(MsgView::AssignOrders { orders: seq![n] })
                },
            ],
        ),
    }
}

/// The orders to clear after `order`: the order, the cab order at its floor,
/// and the hall order served along with it, each once.
pub open spec fn clear_set(order: Order, clear: Option<Order>) -> Seq<Order> {
    let cab = pseudo_cab(order.cb.floor, order.elev_idx);
    let base = if cab == order {
        seq![order]
    } else {
        seq![order, cab]
    };
    match clear {
        None => base,
        Some(c) => if base.contains(c) {
            base
        } else {
            base.push(c)
        },
    }
}

/// Picking the next order after `order`: the new state, the next order
/// addressed to the elevator, and the orders to clear.
pub open spec fn try_next_spec(s: ManagerView, order: Order) -> (ManagerView, Option<Order>, Seq<Order>) {
    let q = s.queue;
    let clear = clear_set(order, next_choice(q, order).1);
    match next_assigned(q, order) {
        Some(a) => (
            with_lists(s, without_request(q, a), s.current.insert(order.elev_idx, a)),
            Some(addressed_to(a, order.elev_idx)),
            clear,
        ),
        None => (s, None, clear),
    }
}

/// Asking for work for the elevator of `completed`: only the master does,
/// and only for an elevator without an order.
pub open spec fn want_order_spec(s: ManagerView, completed: Order) -> (ManagerView, Seq<ActionView>) {
    if s.role == Role::Master && !s.current.contains_key(completed.elev_idx) {
        let t = try_next_spec(s, pseudo_cab(completed.cb.floor, completed.elev_idx));
        send_order_spec(t.0, completed, t.1)
    } else {
        (s, seq![])
    }
}

/// The master learns that every node has a requested order: it tells all
/// nodes to queue it, lights it when this node shows it, and assigns it.
pub open spec fn ack_spec(s: ManagerView, msg: MsgView) -> (ManagerView, Seq<ActionView>) {
    match msg {
        MsgView::RequestOrder { order } => if s.role == Role::Master {
            let a1 = seq![ActionView::Send(MsgView::QueueOrders { orders: seq![order] })] + light_if_mine(
                s,
                order,
                true,
            );
            let out = new_order_outcome(s.queue, s.current, s.positions, s.alive_listing, order);
            let s1 = with_lists(s, out.0, out.1);
            match out.2 {
                Some(idx) => {
                    let r = send_order_spec(s1, order, Some(Order { cb: order.cb, elev_idx: idx }));
                    (r.0, a1 + r.1)
                },
                None => (s1, a1),
            }
        } else {
            (s, seq![])
        },
        _ => (s, seq![]),
    }
}

/// Queueing each order in turn, lighting those this node shows.
pub open spec fn queue_orders_fold(s: ManagerView, orders: Seq<Order>) -> (ManagerView, Seq<ActionView>)
    decreases orders.len(),
{
    if orders.len() == 0 {
        (s, seq![])
    } else {
        let r = queue_orders_fold(s, orders.drop_last());
        let o = orders.last();
        (with_lists(r.0, enqueued(r.0.queue, r.0.current, o), r.0.current), r.1 + light_if_mine(r.0, o, true))
    }
}

/// Queueing orders: the master passes them on to all nodes first.
pub open spec fn queue_orders_spec(s: ManagerView, orders: Seq<Order>) -> (ManagerView, Seq<ActionView>) {
    let a0 = if s.role == Role::Master {
        seq![ActionView::Send(MsgView::QueueOrders { orders })]
    } else {
        seq![]
    };
    let r = queue_orders_fold(s, orders);
    (r.0, a0 + r.1)
}

/// The orders for this node, handed to its driver in turn.
pub open spec fn assign_orders_spec(s: ManagerView, orders: Seq<Order>) -> Seq<ActionView>
    decreases orders.len(),
{
    if orders.len() == 0 {
        seq![]
    } else {
        let a = assign_orders_spec(s, orders.drop_last());
        let o = orders.last();
        if o.elev_idx == s.local_idx {
            a.push(ActionView::Command(ElevatorCommand::AssignOrder(o.cb)))
        } else {
            a
        }
    }
}

/// Clearing orders in turn: each leaves the queue, and its light goes off when this node shows it.
pub open spec fn clear_fold(s: ManagerView, orders: Seq<Order>) -> (ManagerView, Seq<ActionView>)
    decreases orders.len(),
{
    if orders.len() == 0 {
        (s, seq![])
    } else {
        let r = clear_fold(s, orders.drop_last());
        let o = orders.last();
        (with_lists(r.0, without_request(r.0.queue, o), r.0.current), r.1 + light_if_mine(r.0, o, false))
    }
}

/// A completed order: a slave reports it to the master. The master clears
/// the elevator's order if it is this one (restarting its idle watchdog) or
/// else requeues the elevator's order, drops the order from the queue,
/// assigns the elevator its next order, and clears the served orders
/// locally and at all nodes.
pub open spec fn complete_spec(s: ManagerView, order: Order) -> (ManagerView, Seq<ActionView>) {
    if s.role == Role::Slave {
        (s, seq![ActionView::Send(MsgView::CompleteOrder { order })])
    } else {
        let r1 = if s.current.contains_key(order.elev_idx) {
            let c = s.current[order.elev_idx];
            if c == order {
                (
                    with_lists(s, s.queue, s.current.remove(order.elev_idx)),
                    seq![ActionView::ResetIdleWatchdog(order.elev_idx)],
                )
            } else {
                (with_lists(s, s.queue.push(c), s.current), seq![])
            }
        } else {
            (s, seq![])
        };
        let s2 = with_lists(r1.0, without_order(r1.0.queue, order), r1.0.current);
        let t = try_next_spec(s2, order);
        let r4 = send_order_spec(t.0, order, t.1);
        let clear = t.2;
        if clear.len() > 0 {
            let r5 = clear_fold(r4.0, clear);
            (r5.0, r1.1 + r4.1 + r5.1 + seq![ActionView::Send(MsgView::ClearOrders { orders: clear })])
        } else {
            (r4.0, r1.1 + r4.1)
        }
    }
}

/// The position that a shared elevator state stands for.
pub open spec fn position_of(st: ElevatorState) -> Position {
    Position { floor: st.floor, obstruction: st.obstruction }
}

/// The positions after recording each state in turn.
pub open spec fn record_states(pos: Map<usize, Position>, states: Seq<ElevatorState>) -> Map<usize, Position>
    decreases states.len(),
{
    if states.len() == 0 {
        pos
    } else {
        record_states(pos, states.drop_last()).insert(states.last().id as usize, position_of(states.last()))
    }
}

/// `s` with the given states recorded.
pub open spec fn state_update_spec(s: ManagerView, states: Seq<ElevatorState>) -> ManagerView {
    ManagerView { positions: record_states(s.positions, states), ..s }
}

/// For each shared state in turn, asking for work for its elevator when it has no order.
pub open spec fn kick_states_fold(s: ManagerView, states: Seq<ElevatorState>) -> (ManagerView, Seq<ActionView>)
    decreases states.len(),
{
    if states.len() == 0 {
        (s, seq![])
    } else {
        let r = kick_states_fold(s, states.drop_last());
        let id = states.last().id as usize;
        if !r.0.current.contains_key(id) {
            let w = want_order_spec(r.0, pseudo_cab(r.0.positions[id].floor, id));
            (w.0, r.1 + w.1)
        } else {
            r
        }
    }
}

/// States to record and share: they are recorded, passed to all nodes once
/// the network is up, and the master asks for work for each idle elevator among them.
pub open spec fn share_spec(s: ManagerView, states: Seq<ElevatorState>) -> (ManagerView, Seq<ActionView>) {
    let s1 = state_update_spec(s, states);
    let a1 = if s1.ready {
        seq![ActionView::Send(MsgView::StateUpdate { states })]
    } else {
        seq![]
    };
    if s1.role == Role::Master {
        let r = kick_states_fold(s1, states);
        (r.0, a1 + r.1)
    } else {
        (s1, a1)
    }
}

/// An order that did not complete in time: the master takes it from its
/// elevator, stops that elevator's order watchdog, assigns the order anew,
/// asks for work for the elevator, and restarts its idle watchdog.
pub open spec fn order_timeout_spec(s: ManagerView, elev_idx: usize) -> (ManagerView, Seq<ActionView>) {
    if s.role == Role::Master && s.current.contains_key(elev_idx) {
        let order = s.current[elev_idx];
        let s1 = with_lists(s, s.queue, s.current.remove(elev_idx));
        let r2 = ack_spec(s1, MsgView::RequestOrder { order });
        let r3 = want_order_spec(r2.0, order);
        (
            r3.0,
            seq![ActionView::RemoveOrderWatchdog(elev_idx)] + r2.1 + r3.1 + seq![
                ActionView::ResetIdleWatchdog(elev_idx),
            ],
        )
    } else {
        (s, seq![])
    }
}

/// An elevator idle for too long: the master asks for work for it if it has
/// a position and no order; it stops watching an elevator that has an order.
pub open spec fn idle_timeout_spec(s: ManagerView, elev_idx: usize) -> (ManagerView, Seq<ActionView>) {
    if s.role == Role::Master {
        if s.positions.contains_key(elev_idx) {
            if !s.current.contains_key(elev_idx) {
                let w = want_order_spec(s, pseudo_cab(s.positions[elev_idx].floor, elev_idx));
                (w.0, w.1 + seq![ActionView::ResetIdleWatchdog(elev_idx)])
            } else {
                (s, seq![ActionView::RemoveIdleWatchdog(elev_idx)])
            }
        } else {
            (s, seq![ActionView::ResetIdleWatchdog(elev_idx)])
        }
    } else {
        (s, seq![])
    }
}

/// Getting an elevator going: one with an order only has its order watchdog
/// restarted; one with a position is asked for work; either way without an
/// order its idle watchdog restarts.
pub open spec fn kickstart_spec(s: ManagerView, elev_idx: usize) -> (ManagerView, Seq<ActionView>) {
    if s.current.contains_key(elev_idx) {
        (s, seq![ActionView::ResetOrderWatchdog(elev_idx)])
    } else if s.positions.contains_key(elev_idx) {
        let w = want_order_spec(s, pseudo_cab(s.positions[elev_idx].floor, elev_idx));
        (w.0, w.1 + seq![ActionView::ResetIdleWatchdog(elev_idx)])
    } else {
        (s, seq![ActionView::ResetIdleWatchdog(elev_idx)])
    }
}

/// Getting each of the elevators going, in turn.
pub open spec fn kickstart_fold(s: ManagerView, ids: Seq<usize>) -> (ManagerView, Seq<ActionView>)
    decreases ids.len(),
{
    if ids.len() == 0 {
        (s, seq![])
    } else {
        let r = kickstart_fold(s, ids.drop_last());
        let k = kickstart_spec(r.0, ids.last());
        (k.0, r.1 + k.1)
    }
}

/// Forgetting a lost elevator: its watchdogs stop, its position is dropped,
/// and its order, if any, is assigned anew.
pub open spec fn lost_spec(s: ManagerView, elev_idx: usize) -> (ManagerView, Seq<ActionView>) {
    let a0 = seq![ActionView::RemoveOrderWatchdog(elev_idx), ActionView::RemoveIdleWatchdog(elev_idx)];
    let s1 = ManagerView { positions: s.positions.remove(elev_idx), ..s };
    if s1.current.contains_key(elev_idx) {
        let order = s1.current[elev_idx];
        let s2 = with_lists(s1, s1.queue, s1.current.remove(elev_idx));
        let r = ack_spec(s2, MsgView::RequestOrder { order });
        (r.0, a0 + r.1)
    } else {
        (s1, a0)
    }
}

/// Forgetting each lost elevator, in turn.
pub open spec fn lost_fold(s: ManagerView, ids: Seq<usize>) -> (ManagerView, Seq<ActionView>)
    decreases ids.len(),
{
    if ids.len() == 0 {
        (s, seq![])
    } else {
        let r = lost_fold(s, ids.drop_last());
        let l = lost_spec(r.0, ids.last());
        (l.0, r.1 + l.1)
    }
}

/// Whether `states` lists, once each and in some order, the position of
/// every elevator in `pos`.
pub open spec fn lists_positions(states: Seq<ElevatorState>, pos: Map<usize, Position>) -> bool {
    exists|keys: Seq<usize>|
        #![trigger keys.to_set()]
        {
            &&& keys.no_duplicates()
            &&& keys.to_set() == pos.dom()
            &&& states == keys.map_values(
                |k: usize| ElevatorState { id: k as u8, floor: pos[k].floor, obstruction: pos[k].obstruction },
            )
        }
}

/// Reacting to a change of the alive set: the master gets every alive
/// elevator going when it just took over, or else each elevator that
/// joined; it forgets each lost elevator. When elevators joined, every
/// node shares all the orders it knows and all positions with the others.
pub open spec fn membership_change_spec(
    s: ManagerView,
    newly: Seq<usize>,
    lost: Seq<usize>,
    became_master: bool,
    ch: Choices,
) -> Option<(ManagerView, Seq<ActionView>)> {
    let r1 = if s.role == Role::Master {
        let k = if became_master {
            kickstart_fold(s, s.alive_listing)
        } else {
            kickstart_fold(s, newly)
        };
        let l = lost_fold(k.0, lost);
        (l.0, k.1 + l.1)
    } else {
        (s, seq![])
    };
    if newly.len() > 0 {
        if lists_values(ch.listed_orders, r1.0.current) && lists_positions(ch.listed_states, r1.0.positions) {
            Some(
                (
                    r1.0,
                    r1.1 + seq![
                        ActionView::Send(MsgView::QueueOrders { orders: r1.0.queue + ch.listed_orders }),
                        ActionView::Send(MsgView::StateUpdate { states: ch.listed_states }),
                    ],
                ),
            )
        } else {
            None
        }
    } else {
        Some(r1)
    }
}

/// A new alive list: the membership is updated (this node is master exactly
/// when its id is the smallest alive id) and the change is reacted to.
pub open spec fn alives_spec(s: ManagerView, ids: Seq<u8>, ch: Choices) -> Option<(ManagerView, Seq<ActionView>)> {
    if !lists_set(ch.alive_listing, id_set(ids)) {
        None
    } else {
        let master = is_least(ids, s.local_id);
        let became = master && (s.alive.is_empty() || !is_least_of_set(s.alive, s.local_id as usize));
        let s1 = ManagerView {
            alive: id_set(ids),
            alive_listing: ch.alive_listing,
            role: if master {
                Role::Master
            } else {
                Role::Slave
            },
            ready: true,
            ..s
        };
        membership_change_spec(
            s1,
            ch.alive_listing.filter(not_in_set(s.alive)),
            s.alive_listing.filter(not_in_set(id_set(ids))),
            became,
            ch,
        )
    }
}

/// One step of the order manager on an event.
pub open spec fn step_spec(s: ManagerView, e: EventView, ch: Choices) -> Option<(ManagerView, Seq<ActionView>)> {
    match e {
        EventView::RequestOrder { order } => Some((s, seq![ActionView::Send(MsgView::RequestOrder { order })])),
        EventView::AckReceived(msg) => Some(ack_spec(s, msg)),
        EventView::QueueOrders { orders } => Some(queue_orders_spec(s, orders)),
        EventView::AssignOrders { orders } => Some((s, assign_orders_spec(s, orders))),
        EventView::CompleteOrder { order } => Some(complete_spec(s, order)),
        EventView::ClearOrders { orders } => Some(clear_fold(s, orders)),
        EventView::StateUpdate { states } => Some((state_update_spec(s, states), seq![])),
        EventView::StateUpdateAndShare { states } => Some(share_spec(s, states)),
        EventView::OrderTimeout { elev_idx } => Some(order_timeout_spec(s, elev_idx)),
        EventView::IdleTimeout { elev_idx } => Some(idle_timeout_spec(s, elev_idx)),
        EventView::AlivesUpdate { alive_elevs } => alives_spec(s, alive_elevs, ch),
    }
}


/// The order manager: the order list, the membership view, the known
/// positions, and this node's id.
pub struct ManagerState {
    order_list: OrderList,
    membership: MembershipState,
    positions: HashMap<usize, Position>,
    local_id: u8,
    local_idx: usize,
}

impl View for ManagerState {
    type V = ManagerView;

    closed spec fn view(&self) -> ManagerView {
        ManagerView {
            queue: self.order_list.queue_view(),
            current: self.order_list.current_view(),
            alive: self.membership.alive_view(),
            alive_listing: self.membership.alive_listing(),
            role: self.membership.role_view(),
            ready: self.membership.ready_view(),
            positions: self.positions@,
            local_id: self.local_id,
            local_idx: self.local_idx,
        }
    }
}

fn emit(acts: &mut Vec<ManagerAction>, a: ManagerAction)
    ensures
        views(final(acts)@) == views(old(acts)@).push(a@),
{
    let ghost before = acts@;
    acts.push(a);
    assert(views(acts@) =~= views(before).push(a@));
}

fn contains_order(v: &Vec<Order>, o: Order) -> (b: bool)
    ensures
        b == v@.contains(o),
{
    let mut i: usize = 0;
    while i < v.len()
        invariant
            0 <= i <= v@.len(),
            forall|j: int| 0 <= j < i ==> v@[j] != o,
        decreases v@.len() - i,
    {
        if v[i] == o {
            return true;
        }
        i = i + 1;
    }
    false
}

/// The event that a report of the local elevator driver stands for: a
/// button press is a request from this elevator, a new position is shared,
/// and a completed call is a completed order of this elevator.
pub open spec fn event_of_elevator(ev: ElevatorEvent, local_id: u8) -> EventView {
    match ev {
        ElevatorEvent::ButtonPress(cb) => EventView::RequestOrder { order: Order { cb, elev_idx: local_id as usize } },
        ElevatorEvent::StateUpdate(pos) => EventView::StateUpdateAndShare {
            states: seq![ElevatorState { id: local_id, floor: pos.floor, obstruction: pos.obstruction }],
        },
        ElevatorEvent::OrderComplete(cb) => EventView::CompleteOrder {
            order: Order { cb, elev_idx: local_id as usize },
        },
    }
}

/// The event that a report of the local elevator driver stands for.
pub fn event_from_elevator(ev: ElevatorEvent, local_id: u8) -> (e: Event)
    ensures
        e@ == event_of_elevator(ev, local_id),
{
    let local_idx = local_id as usize;
    match ev {
        ElevatorEvent::ButtonPress(cb) => Event::RequestOrder { order: Order { cb, elev_idx: local_idx } },
        ElevatorEvent::StateUpdate(pos) => {
            let states = vec![ElevatorState { id: local_id, floor: pos.floor, obstruction: pos.obstruction }];
            assert(states@ =~= seq![ElevatorState { id: local_id, floor: pos.floor, obstruction: pos.obstruction }]);
            Event::StateUpdateAndShare { states }
        },
        ElevatorEvent::OrderComplete(cb) => Event::CompleteOrder { order: Order { cb, elev_idx: local_idx } },
    }
}

impl ManagerState {
    /// A manager for node `local_id` whose elevator stands at `initial`:
    /// no orders, no known alive elevators, slave, network not yet heard.
    pub fn new(local_id: u8, initial: Position) -> (m: Self)
        ensures
            m@.queue == Seq::<Order>::empty(),
            m@.current == Map::<usize, Order>::empty(),
            m@.alive == Set::<usize>::empty(),
            m@.role == Role::Slave,
            !m@.ready,
            m@.positions == Map::<usize, Position>::empty().insert(local_id as usize, initial),
            m@.local_id == local_id,
            m@.local_idx == local_id as usize,
    {
        let local_idx = local_id as usize;
        let mut positions: HashMap<usize, Position> = HashMap::new();
        positions.insert(local_idx, initial);
        ManagerState {
            order_list: OrderList::new(),
            membership: MembershipState::new(),
            positions,
            local_id,
            local_idx,
        }
    }

    /// Whether this node is the master.
    pub fn is_master(&self) -> (b: bool)
        ensures
            b == (self@.role == Role::Master),
    {
        self.membership.is_master()
    }

    /// The role of this node.
    pub fn role(&self) -> (r: &Role)
        ensures
            *r == self@.role,
    {
        self.membership.role()
    }

    fn send_order(&mut self, completed: Order, next_order: Option<Order>, acts: &mut Vec<ManagerAction>)
        ensures
            final(self)@ == send_order_spec(old(self)@, completed, next_order).0,
            views(final(acts)@) == views(old(acts)@) + send_order_spec(old(self)@, completed, next_order).1,
    {
        let ghost v0 = views(acts@);
        emit(acts, ManagerAction::ResetOrderWatchdog(completed.elev_idx));
        if let Some(next) = next_order {
            self.order_list.assign(next.elev_idx, next);
            emit(acts, ManagerAction::ResetOrderWatchdog(next.elev_idx));
            emit(acts, ManagerAction::RemoveIdleWatchdog(next.elev_idx));
            if next.elev_idx == self.local_idx {
                emit(acts, ManagerAction::Command(ElevatorCommand::AssignOrder(next.cb)));
            } else {
                let orders = vec![next];
                assert(orders@ =~= seq![next]);
                emit(acts, ManagerAction::Send(Msg::AssignOrders { orders }));
            }
        }
        assert(views(acts@) =~= v0 + send_order_spec(old(self)@, completed, next_order).1);
    }

    fn try_assign_next_order(&mut self, order: Order) -> (r: (Option<Order>, Vec<Order>))
        ensures
            final(self)@ == try_next_spec(old(self)@, order).0,
            r.0 == try_next_spec(old(self)@, order).1,
            r.1@ == try_next_spec(old(self)@, order).2,
    {
        let result = assign_next_order(order, &mut self.order_list);
        let mut clear: Vec<Order> = Vec::new();
        clear.push(order);
        let cab = Order { cb: CallButton { floor: order.cb.floor, call: CallType::Cab }, elev_idx: order.elev_idx };
        if cab != order {
            clear.push(cab);
        }
        let ghost base = clear@;
        assert(base =~= (if cab == order { seq![order] } else { seq![order, cab] }));
        if let Some(c) = result.clear {
            if !contains_order(&clear, c) {
                clear.push(c);
            }
        }
        (result.next, clear)
    }

    fn want_order(&mut self, completed: Order, acts: &mut Vec<ManagerAction>)
        ensures
            final(self)@ == want_order_spec(old(self)@, completed).0,
            views(final(acts)@) == views(old(acts)@) + want_order_spec(old(self)@, completed).1,
    {
        if self.membership.is_master() && !self.order_list.has_assignment(completed.elev_idx) {
            let pseudo_order = Order {
                cb: CallButton { floor: completed.cb.floor, call: CallType::Cab },
                elev_idx: completed.elev_idx,
            };
            let (next_order, _) = self.try_assign_next_order(pseudo_order);
            self.send_order(completed, next_order, acts);
        } else {
            assert(views(acts@) =~= views(acts@) + seq![]);
        }
    }

    fn try_assign_new_order(&mut self, order: Order) -> (r: Option<usize>)
        ensures
            (final(self)@.queue, final(self)@.current, r) == new_order_outcome(
                old(self)@.queue,
                old(self)@.current,
                old(self)@.positions,
                old(self)@.alive_listing,
                order,
            ),
            final(self)@ == with_lists(old(self)@, final(self)@.queue, final(self)@.current),
    {
        let alive = self.membership.alive_vec();
        assign_new_order(order, &mut self.order_list, &self.positions, alive.as_slice())
    }

    fn on_ack_received(&mut self, msg: Msg, acts: &mut Vec<ManagerAction>)
        ensures
            final(self)@ == ack_spec(old(self)@, msg@).0,
            views(final(acts)@) == views(old(acts)@) + ack_spec(old(self)@, msg@).1,
    {
        let ghost v0 = views(acts@);
        let ghost s0 = self@;
        if let Msg::RequestOrder { order } = msg {
            if self.membership.is_master() {
                let orders = vec![order];
                assert(orders@ =~= seq![order]);
                emit(acts, ManagerAction::Send(Msg::QueueOrders { orders }));
                if order.is_for(self.local_idx) {
                    emit(acts, ManagerAction::Command(ElevatorCommand::SetLight(order.cb, true)));
                }
                let ghost v1 = views(acts@);
                assert(v1 =~= v0 + (seq![ActionView::Send(MsgView::QueueOrders { orders: seq![order] })]
                    + light_if_mine(s0, order, true)));
                if let Some(order_elev_idx) = self.try_assign_new_order(order) {
                    self.send_order(order, Some(Order { cb: order.cb, elev_idx: order_elev_idx }), acts);
                }
                assert(views(acts@) =~= v0 + ack_spec(s0, msg@).1);
                return;
            }
        }
        assert(views(acts@) =~= v0 + seq![]);
    }

    fn on_queue_orders(&mut self, orders: Vec<Order>, acts: &mut Vec<ManagerAction>)
        ensures
            final(self)@ == queue_orders_spec(old(self)@, orders@).0,
            views(final(acts)@) == views(old(acts)@) + queue_orders_spec(old(self)@, orders@).1,
    {
        let ghost v0 = views(acts@);
        let ghost s0 = self@;
        if self.membership.is_master() {
            let copy = clone_orders(&orders);
            emit(acts, ManagerAction::Send(Msg::QueueOrders { orders: copy }));
        }
        let ghost v1 = views(acts@);
        let n = orders.len();
        let mut i: usize = 0;
        while i < n
            invariant
                n == orders@.len(),
                0 <= i <= n,
                self@ == queue_orders_fold(s0, orders@.take(i as int)).0,
                views(acts@) == v1 + queue_orders_fold(s0, orders@.take(i as int)).1,
            decreases n - i,
        {
            let order = orders[i];
            assert(orders@.take(i + 1).drop_last() =~= orders@.take(i as int));
            let ghost before = views(acts@);
            self.order_list.enqueue(order);
            if order.is_for(self.local_idx) {
                emit(acts, ManagerAction::Command(ElevatorCommand::SetLight(order.cb, true)));
            }
            let ghost r = queue_orders_fold(s0, orders@.take(i as int));
            assert(views(acts@) =~= v1 + (r.1 + light_if_mine(r.0, order, true)));
            i = i + 1;
        }
        assert(orders@.take(n as int) =~= orders@);
        assert(views(acts@) =~= v0 + queue_orders_spec(s0, orders@).1);
    }

    fn on_assign_orders(&self, orders: Vec<Order>, acts: &mut Vec<ManagerAction>)
        ensures
            views(final(acts)@) == views(old(acts)@) + assign_orders_spec(self@, orders@),
    {
        let ghost v0 = views(acts@);
        let n = orders.len();
        let mut i: usize = 0;
        while i < n
            invariant
                n == orders@.len(),
                0 <= i <= n,
                views(acts@) == v0 + assign_orders_spec(self@, orders@.take(i as int)),
            decreases n - i,
        {
            let order = orders[i];
            assert(orders@.take(i + 1).drop_last() =~= orders@.take(i as int));
            if order.elev_idx == self.local_idx {
                emit(acts, ManagerAction::Command(ElevatorCommand::AssignOrder(order.cb)));
            }
            assert(views(acts@) =~= v0 + assign_orders_spec(self@, orders@.take(i + 1)));
            i = i + 1;
        }
        assert(orders@.take(n as int) =~= orders@);
    }

    fn clear_these_orders(&mut self, completed_orders: Vec<Order>, acts: &mut Vec<ManagerAction>)
        ensures
            final(self)@ == clear_fold(old(self)@, completed_orders@).0,
            views(final(acts)@) == views(old(acts)@) + clear_fold(old(self)@, completed_orders@).1,
    {
        let ghost v0 = views(acts@);
        let ghost s0 = self@;
        let n = completed_orders.len();
        let mut i: usize = 0;
        while i < n
            invariant
                n == completed_orders@.len(),
                0 <= i <= n,
                self@ == clear_fold(s0, completed_orders@.take(i as int)).0,
                views(acts@) == v0 + clear_fold(s0, completed_orders@.take(i as int)).1,
            decreases n - i,
        {
            let order = completed_orders[i];
            assert(completed_orders@.take(i + 1).drop_last() =~= completed_orders@.take(i as int));
            self.order_list.dequeue(&order);
            if order.is_for(self.local_idx) {
                emit(acts, ManagerAction::Command(ElevatorCommand::SetLight(order.cb, false)));
            }
            let ghost r = clear_fold(s0, completed_orders@.take(i as int));
            assert(views(acts@) =~= v0 + (r.1 + light_if_mine(r.0, order, false)));
            i = i + 1;
        }
        assert(completed_orders@.take(n as int) =~= completed_orders@);
    }

    fn on_state_update(&mut self, states: Vec<ElevatorState>)
        ensures
            final(self)@ == state_update_spec(old(self)@, states@),
    {
        let ghost s0 = self@;
        let n = states.len();
        let mut i: usize = 0;
        while i < n
            invariant
                n == states@.len(),
                0 <= i <= n,
                self@ == state_update_spec(s0, states@.take(i as int)),
            decreases n - i,
        {
            let st = states[i];
            assert(states@.take(i + 1).drop_last() =~= states@.take(i as int));
            self.positions.insert(st.id as usize, Position { floor: st.floor, obstruction: st.obstruction });
            i = i + 1;
        }
        assert(states@.take(n as int) =~= states@);
    }

    fn on_state_update_and_share(&mut self, states: Vec<ElevatorState>, acts: &mut Vec<ManagerAction>)
        ensures
            final(self)@ == share_spec(old(self)@, states@).0,
            views(final(acts)@) == views(old(acts)@) + share_spec(old(self)@, states@).1,
    {
        let ghost v0 = views(acts@);
        let ghost s0 = self@;
        let n = states.len();
        let mut i: usize = 0;
        while i < n
            invariant
                n == states@.len(),
                0 <= i <= n,
                self@ == state_update_spec(s0, states@.take(i as int)),
                forall|j: int| 0 <= j < i ==> self.positions@.contains_key(#[trigger] states@[j].id as usize),
            decreases n - i,
        {
            let st = states[i];
            assert(states@.take(i + 1).drop_last() =~= states@.take(i as int));
            self.positions.insert(st.id as usize, Position { floor: st.floor, obstruction: st.obstruction });
            i = i + 1;
        }
        assert(states@.take(n as int) =~= states@);
        let ghost s1 = self@;
        if self.membership.is_network_ready() {
            let copy = clone_states(&states);
            emit(acts, ManagerAction::Send(Msg::StateUpdate { states: copy }));
        }
        let ghost v1 = views(acts@);
        if self.membership.is_master() {
            let mut i: usize = 0;
            while i < n
                invariant
                    n == states@.len(),
                    0 <= i <= n,
                    self@ == kick_states_fold(s1, states@.take(i as int)).0,
                    views(acts@) == v1 + kick_states_fold(s1, states@.take(i as int)).1,
                    self.positions@ == s1.positions,
                    forall|j: int| 0 <= j < n ==> s1.positions.contains_key(#[trigger] states@[j].id as usize),
                decreases n - i,
            {
                let elev_idx = states[i].id as usize;
                assert(states@.take(i + 1).drop_last() =~= states@.take(i as int));
                let ghost r = kick_states_fold(s1, states@.take(i as int));
                if !self.order_list.has_assignment(elev_idx) {
                    assert(s1.positions.contains_key(states@[i as int].id as usize));
                    let floor = match self.positions.get(&elev_idx) {
                        Some(p) => p.floor,
                        None => 0,
                    };
                    let pseudo_cb = CallButton { floor, call: CallType::Cab };
                    self.want_order(Order { cb: pseudo_cb, elev_idx }, acts);
                    assert(views(acts@) =~= v1 + kick_states_fold(s1, states@.take(i + 1)).1);
                }
                i = i + 1;
            }
            assert(views(acts@) =~= v0 + share_spec(s0, states@).1);
        } else {
            assert(views(acts@) =~= v0 + share_spec(s0, states@).1);
        }
    }

    fn on_order_timeout(&mut self, elev_idx: usize, acts: &mut Vec<ManagerAction>)
        ensures
            final(self)@ == order_timeout_spec(old(self)@, elev_idx).0,
            views(final(acts)@) == views(old(acts)@) + order_timeout_spec(old(self)@, elev_idx).1,
    {
        let ghost v0 = views(acts@);
        let ghost s0 = self@;
        if self.membership.is_master() {
            if let Some(order) = self.order_list.unassign(elev_idx) {
                emit(acts, ManagerAction::RemoveOrderWatchdog(elev_idx));
                self.on_ack_received(Msg::RequestOrder { order }, acts);
                self.want_order(order, acts);
                emit(acts, ManagerAction::ResetIdleWatchdog(elev_idx));
                assert(views(acts@) =~= v0 + order_timeout_spec(s0, elev_idx).1);
                return;
            }
            assert(self@.current =~= s0.current);
            assert(self@ == s0);
        }
        assert(views(acts@) =~= v0 + seq![]);
    }

    fn on_idle_timeout(&mut self, elev_idx: usize, acts: &mut Vec<ManagerAction>)
        ensures
            final(self)@ == idle_timeout_spec(old(self)@, elev_idx).0,
            views(final(acts)@) == views(old(acts)@) + idle_timeout_spec(old(self)@, elev_idx).1,
    {
        let ghost v0 = views(acts@);
        let ghost s0 = self@;
        if self.membership.is_master() {
            match self.positions.get(&elev_idx) {
                Some(p) => {
                    let floor = p.floor;
                    if !self.order_list.has_assignment(elev_idx) {
                        let order = Order { cb: CallButton { floor, call: CallType::Cab }, elev_idx };
                        self.want_order(order, acts);
                        emit(acts, ManagerAction::ResetIdleWatchdog(elev_idx));
                    } else {
                        emit(acts, ManagerAction::RemoveIdleWatchdog(elev_idx));
                    }
                },
                None => {
                    emit(acts, ManagerAction::ResetIdleWatchdog(elev_idx));
                },
            }
            assert(views(acts@) =~= v0 + idle_timeout_spec(s0, elev_idx).1);
        } else {
            assert(views(acts@) =~= v0 + seq![]);
        }
    }

    fn kickstart_idle_elevator(&mut self, elev_idx: usize, acts: &mut Vec<ManagerAction>)
        ensures
            final(self)@ == kickstart_spec(old(self)@, elev_idx).0,
            views(final(acts)@) == views(old(acts)@) + kickstart_spec(old(self)@, elev_idx).1,
    {
        let ghost v0 = views(acts@);
        let ghost s0 = self@;
        if self.order_list.has_assignment(elev_idx) {
            emit(acts, ManagerAction::ResetOrderWatchdog(elev_idx));
            assert(views(acts@) =~= v0 + kickstart_spec(s0, elev_idx).1);
            return;
        }
        match self.positions.get(&elev_idx) {
            Some(p) => {
                let floor = p.floor;
                let pseudo_cb = CallButton { floor, call: CallType::Cab };
                self.want_order(Order { cb: pseudo_cb, elev_idx }, acts);
                emit(acts, ManagerAction::ResetIdleWatchdog(elev_idx));
            },
            None => {
                emit(acts, ManagerAction::ResetIdleWatchdog(elev_idx));
            },
        }
        assert(views(acts@) =~= v0 + kickstart_spec(s0, elev_idx).1);
    }

    fn kickstart_all(&mut self, ids: &Vec<usize>, acts: &mut Vec<ManagerAction>)
        ensures
            final(self)@ == kickstart_fold(old(self)@, ids@).0,
            views(final(acts)@) == views(old(acts)@) + kickstart_fold(old(self)@, ids@).1,
    {
        let ghost v0 = views(acts@);
        let ghost s0 = self@;
        let n = ids.len();
        let mut i: usize = 0;
        while i < n
            invariant
                n == ids@.len(),
                0 <= i <= n,
                self@ == kickstart_fold(s0, ids@.take(i as int)).0,
                views(acts@) == v0 + kickstart_fold(s0, ids@.take(i as int)).1,
            decreases n - i,
        {
            assert(ids@.take(i + 1).drop_last() =~= ids@.take(i as int));
            let ghost r = kickstart_fold(s0, ids@.take(i as int));
            self.kickstart_idle_elevator(ids[i], acts);
            assert(views(acts@) =~= v0 + kickstart_fold(s0, ids@.take(i + 1)).1);
            i = i + 1;
        }
        assert(ids@.take(n as int) =~= ids@);
    }

    fn forget_lost(&mut self, ids: &Vec<usize>, acts: &mut Vec<ManagerAction>)
        ensures
            final(self)@ == lost_fold(old(self)@, ids@).0,
            views(final(acts)@) == views(old(acts)@) + lost_fold(old(self)@, ids@).1,
    {
        let ghost v0 = views(acts@);
        let ghost s0 = self@;
        let n = ids.len();
        let mut i: usize = 0;
        while i < n
            invariant
                n == ids@.len(),
                0 <= i <= n,
                self@ == lost_fold(s0, ids@.take(i as int)).0,
                views(acts@) == v0 + lost_fold(s0, ids@.take(i as int)).1,
            decreases n - i,
        {
            let elev_idx = ids[i];
            assert(ids@.take(i + 1).drop_last() =~= ids@.take(i as int));
            let ghost r = lost_fold(s0, ids@.take(i as int));
            emit(acts, ManagerAction::RemoveOrderWatchdog(elev_idx));
            emit(acts, ManagerAction::RemoveIdleWatchdog(elev_idx));
            self.positions.remove(&elev_idx);
            let ghost cur = self@.current;
            if let Some(order) = self.order_list.unassign(elev_idx) {
                self.on_ack_received(Msg::RequestOrder { order }, acts);
            } else {
                assert(self@.current =~= cur);
            }
            assert(views(acts@) =~= v0 + lost_fold(s0, ids@.take(i + 1)).1);
            i = i + 1;
        }
        assert(ids@.take(n as int) =~= ids@);
    }

    fn current_states(&self) -> (r: Vec<ElevatorState>)
        ensures
            lists_positions(r@, self@.positions),
    {
        let mut r: Vec<ElevatorState> = Vec::new();
        let entries = self.positions.iter();
        let ghost s = vstd::std_specs::iter::IteratorSpec::remaining(&entries);
        let ghost m = self.positions@;
        for kv in it: entries
            invariant
                it.seq() == s,
                m == self.positions@,
                r@.len() == it.index(),
                forall|j: int|
                    0 <= j < it.index() ==> r@[j] == ({
                        let e = #[trigger] s[j];
                        ElevatorState { id: *e.0 as u8, floor: e.1.floor, obstruction: e.1.obstruction }
                    }),
        {
            let (id, pos) = kv;
            proof {
                assert(it.seq()[it.index() as int] == kv);
            }
            r.push(ElevatorState { id: *id as u8, floor: pos.floor, obstruction: pos.obstruction });
        }
        proof {
            let keys = s.map_values(|e: (&usize, &Position)| *e.0);
            assert forall|i: int, j: int| 0 <= i < keys.len() && 0 <= j < keys.len() && i != j implies keys[i]
                != keys[j] by {
                assert(m.contains_key(*s[i].0));
                assert(m.contains_key(*s[j].0));
            }
            assert forall|k: usize| keys.to_set().contains(k) <==> m.contains_key(k) by {
                if m.contains_key(k) {
                    let idx = choose|idx: int| 0 <= idx < s.len() && s[idx] == (&k, &m[k]);
                    assert(keys[idx] == k);
                }
                if keys.to_set().contains(k) {
                    let idx = choose|idx: int| 0 <= idx < keys.len() && keys[idx] == k;
                    assert(m.contains_key(*s[idx].0));
                }
            }
            assert(keys.to_set() =~= m.dom());
            let f = |k: usize| ElevatorState { id: k as u8, floor: m[k].floor, obstruction: m[k].obstruction };
            assert forall|j: int| 0 <= j < r@.len() implies r@[j] == keys.map_values(f)[j] by {
                assert(m.contains_key(*s[j].0));
            }
            assert(r@ =~= keys.map_values(f));
        }
        r
    }

    fn handle_membership_change(&mut self, change: MembershipChange, acts: &mut Vec<ManagerAction>)
        ensures
            exists|lo: Seq<Order>, ls: Seq<ElevatorState>|
                membership_change_spec(
                    old(self)@,
                    change.newly_alive@,
                    change.lost@,
                    change.became_master,
                    Choices { alive_listing: old(self)@.alive_listing, listed_orders: lo, listed_states: ls },
                ) == Some((final(self)@, views(final(acts)@).subrange(views(old(acts)@).len() as int, views(final(acts)@).len() as int))),
    {
        let ghost v0 = views(acts@);
        let ghost s0 = self@;
        if self.membership.is_master() {
            if change.became_master {
                let alive = self.membership.alive_vec();
                self.kickstart_all(&alive, acts);
            } else {
                self.kickstart_all(&change.newly_alive, acts);
            }
            self.forget_lost(&change.lost, acts);
        }
        let ghost s1 = self@;
        let ghost v1 = views(acts@);
        if change.newly_alive.len() > 0 {
            let orders_to_send = self.order_list.all_orders();
            let states_to_send = self.current_states();
            let ghost lo = orders_to_send@.skip(s1.queue.len() as int);
            assert(orders_to_send@ =~= s1.queue + lo);
            let ghost ls = states_to_send@;
            emit(acts, ManagerAction::Send(Msg::QueueOrders { orders: orders_to_send }));
            emit(acts, ManagerAction::Send(Msg::StateUpdate { states: states_to_send }));
            let ghost ch = Choices { alive_listing: s0.alive_listing, listed_orders: lo, listed_states: ls };
            assert(views(acts@).subrange(v0.len() as int, views(acts@).len() as int) =~= membership_change_spec(
                s0,
                change.newly_alive@,
                change.lost@,
                change.became_master,
                ch,
            ).unwrap().1);
        } else {
            let ghost ch = Choices { alive_listing: s0.alive_listing, listed_orders: seq![], listed_states: seq![] };
            assert(views(acts@).subrange(v0.len() as int, views(acts@).len() as int) =~= membership_change_spec(
                s0,
                change.newly_alive@,
                change.lost@,
                change.became_master,
                ch,
            ).unwrap().1);
        }
    }

    fn on_alives_update(&mut self, alive_elevs: Vec<u8>, acts: &mut Vec<ManagerAction>)
        ensures
            exists|ch: Choices|
                alives_spec(old(self)@, alive_elevs@, ch) == Some((final(self)@, views(final(acts)@).subrange(views(old(acts)@).len() as int, views(final(acts)@).len() as int))),
    {
        let ghost s0 = self@;
        let ghost v0 = views(acts@);
        let change = self.membership.update_membership(alive_elevs.as_slice(), self.local_id);
        let ghost s1 = self@;
        let ghost newly = change.newly_alive@;
        let ghost lost = change.lost@;
        let ghost became = change.became_master;
        self.handle_membership_change(change, acts);
        proof {
            let (lo, ls) = choose|lo: Seq<Order>, ls: Seq<ElevatorState>|
                membership_change_spec(
                    s1,
                    newly,
                    lost,
                    became,
                    Choices { alive_listing: s1.alive_listing, listed_orders: lo, listed_states: ls },
                ) == Some((self@, views(acts@).subrange(v0.len() as int, views(acts@).len() as int)));
            let ch = Choices { alive_listing: s1.alive_listing, listed_orders: lo, listed_states: ls };
            assert(alives_spec(s0, alive_elevs@, ch) == membership_change_spec(s1, newly, lost, became, ch));
        }
    }

    /// Handles one event and returns, in order, what the rest of the node must do.
    pub fn handle_event(&mut self, event: Event) -> (acts: Vec<ManagerAction>)
        ensures
            exists|ch: Choices| step_spec(old(self)@, event@, ch) == Some((final(self)@, views(acts@))),
    {
        let ghost s0 = self@;
        let ghost e = event@;
        let mut acts: Vec<ManagerAction> = Vec::new();
        assert(views(acts@) =~= Seq::<ActionView>::empty());
        let ghost any = Choices { alive_listing: seq![], listed_orders: seq![], listed_states: seq![] };
        match event {
            Event::RequestOrder { order } => {
                self.on_request_order(order, &mut acts);
                assert(step_spec(s0, e, any) == Some((self@, views(acts@))));
            },
            Event::AckReceived(msg) => {
                self.on_ack_received(msg, &mut acts);
                assert(step_spec(s0, e, any) == Some((self@, views(acts@))));
            },
            Event::QueueOrders { orders } => {
                self.on_queue_orders(orders, &mut acts);
                assert(step_spec(s0, e, any) == Some((self@, views(acts@))));
            },
            Event::AssignOrders { orders } => {
                self.on_assign_orders(orders, &mut acts);
                assert(step_spec(s0, e, any) == Some((self@, views(acts@))));
            },
            Event::CompleteOrder { order } => {
                self.on_complete_order(order, &mut acts);
                assert(step_spec(s0, e, any) == Some((self@, views(acts@))));
            },
            Event::ClearOrders { orders } => {
                self.clear_these_orders(orders, &mut acts);
                assert(step_spec(s0, e, any) == Some((self@, views(acts@))));
            },
            Event::StateUpdate { states } => {
                self.on_state_update(states);
                assert(step_spec(s0, e, any) == Some((self@, views(acts@))));
            },
            Event::StateUpdateAndShare { states } => {
                self.on_state_update_and_share(states, &mut acts);
                assert(step_spec(s0, e, any) == Some((self@, views(acts@))));
            },
            Event::OrderTimeout { elev_idx } => {
                self.on_order_timeout(elev_idx, &mut acts);
                assert(step_spec(s0, e, any) == Some((self@, views(acts@))));
            },
            Event::IdleTimeout { elev_idx } => {
                self.on_idle_timeout(elev_idx, &mut acts);
                assert(step_spec(s0, e, any) == Some((self@, views(acts@))));
            },
            Event::AlivesUpdate { alive_elevs } => {
                let ghost ids = alive_elevs@;
                self.on_alives_update(alive_elevs, &mut acts);
                assert(views(acts@).subrange(0, views(acts@).len() as int) =~= views(acts@));
                proof {
                    let ch = choose|ch: Choices|
                        alives_spec(s0, ids, ch) == Some(
                            (self@, views(acts@).subrange(0, views(acts@).len() as int)),
                        );
                    assert(step_spec(s0, e, ch) == Some((self@, views(acts@))));
                }
            },
        }
        acts
    }

    fn on_request_order(&self, order: Order, acts: &mut Vec<ManagerAction>)
        ensures
            views(final(acts)@) == views(old(acts)@) + seq![ActionView::Send(MsgView::RequestOrder { order })],
    {
        emit(acts, ManagerAction::Send(Msg::RequestOrder { order }));
        assert(views(acts@) =~= views(old(acts)@) + seq![ActionView::Send(MsgView::RequestOrder { order })]);
    }

    fn on_complete_order(&mut self, order: Order, acts: &mut Vec<ManagerAction>)
        ensures
            final(self)@ == complete_spec(old(self)@, order).0,
            views(final(acts)@) == views(old(acts)@) + complete_spec(old(self)@, order).1,
    {
        let ghost v0 = views(acts@);
        let ghost s0 = self@;
        match self.membership.role() {
            Role::Slave => {
                emit(acts, ManagerAction::Send(Msg::CompleteOrder { order }));
                assert(views(acts@) =~= v0 + complete_spec(s0, order).1);
            },
            Role::Master => {
                if let Some(current) = self.order_list.current_order(order.elev_idx) {
                    let current = *current;
                    if current == order {
                        self.order_list.unassign(order.elev_idx);
                        emit(acts, ManagerAction::ResetIdleWatchdog(order.elev_idx));
                    } else {
                        self.order_list.push_back(current);
                    }
                }
                let ghost s1 = self@;
                let ghost v1 = views(acts@);
                let ghost q1 = self.order_list.queue_view();
                let not_this = |o: &Order| -> (b: bool)
                    ensures
                        b == (*o != order),
                    { *o != order };
                self.order_list.retain(not_this);
                proof {
                    let keep = choose|keep: Seq<bool>|
                        #![trigger crate::order_list::select(q1, keep)]
                        {
                            &&& keep.len() == q1.len()
                            &&& forall|i: int| 0 <= i < keep.len() ==> call_ensures(not_this, (&q1[i],), #[trigger] keep[i])
                            &&& self.order_list.queue_view() == crate::order_list::select(q1, keep)
                        };
                    assert forall|i: int| 0 <= i < q1.len() implies keep[i] == crate::order_list::differs_from(order)(
                        q1[i],
                    ) by {
                        assert(call_ensures(not_this, (&q1[i],), keep[i]));
                    }
                    crate::order_list::lemma_select_is_filter(q1, keep, crate::order_list::differs_from(order));
                }
                assert(self@ == with_lists(s1, without_order(s1.queue, order), s1.current));
                let (next_order, clear_orders) = self.try_assign_next_order(order);
                self.send_order(order, next_order, acts);
                if clear_orders.len() > 0 {
                    let copy = clone_orders(&clear_orders);
                    self.clear_these_orders(copy, acts);
                    emit(acts, ManagerAction::Send(Msg::ClearOrders { orders: clear_orders }));
                }
                assert(views(acts@) =~= v0 + complete_spec(s0, order).1);
            },
        }
    }
}

/// The master's handling of a request: afterwards the request is known,
/// queued or given to an elevator, and an elevator that had no order only
/// has one now if its position is known and its door is not obstructed.
proof fn lemma_ack_keeps_request(s2: ManagerView, order: Order)
    requires
        s2.role == Role::Master,
    ensures
        crate::order_list::contains_request(
            ack_spec(s2, MsgView::RequestOrder { order }).0.queue,
            ack_spec(s2, MsgView::RequestOrder { order }).0.current,
            order,
        ),
        forall|k: usize|
            #[trigger] ack_spec(s2, MsgView::RequestOrder { order }).0.current.contains_key(k) ==> s2.current.contains_key(k)
                || crate::assignment::usable(s2.positions, k),
{
    let out = new_order_outcome(s2.queue, s2.current, s2.positions, s2.alive_listing, order);
    crate::assignment::lemma_new_order_goes_to_able_elevator(
        s2.queue,
        s2.current,
        s2.positions,
        s2.alive_listing,
        order,
    );
    let fin = ack_spec(s2, MsgView::RequestOrder { order }).0;
    match out.2 {
        Some(i) => {
            let n = Order { cb: order.cb, elev_idx: i };
            assert(fin.current == out.1.insert(i, n));
            assert(crate::order_list::same_request(fin.current[i], order));
        },
        None => {
            if crate::order_list::contains_request(s2.queue, s2.current, order) {
                assert(out.0 == s2.queue && out.1 == s2.current);
                if exists|k: usize| s2.current.contains_key(k) && crate::order_list::same_request(
                    #[trigger] s2.current[k],
                    order,
                ) {
                    let k = choose|k: usize|
                        s2.current.contains_key(k) && crate::order_list::same_request(
                            #[trigger] s2.current[k],
                            order,
                        );
                    assert(fin.current.contains_key(k));
                }
            } else {
                let rq = crate::assignment::rebuilt_queue(s2.queue, order);
                assert(crate::assignment::first_pausable(
                    crate::assignment::busy_elevs(s2.alive_listing, s2.current, s2.positions),
                    order,
                    s2.current,
                    s2.positions,
                ) is None);
                assert(out.0 == rq);
                assert(rq[rq.len() - 1] == order);
                assert(crate::order_list::same_request(fin.queue[rq.len() - 1], order));
            }
        },
    }
}

/// When the master forgets a lost elevator, that elevator is left without
/// an order, and the request of the order it had is not lost: it stays
/// queued or goes to another elevator.
pub proof fn lemma_lost_elevator_order_is_kept(s: ManagerView, elev_idx: usize)
    requires
        s.role == Role::Master,
        s.current.contains_key(elev_idx),
    ensures
        !lost_spec(s, elev_idx).0.current.contains_key(elev_idx),
        crate::order_list::contains_request(
            lost_spec(s, elev_idx).0.queue,
            lost_spec(s, elev_idx).0.current,
            s.current[elev_idx],
        ),
{
    let order = s.current[elev_idx];
    let s1 = ManagerView { positions: s.positions.remove(elev_idx), ..s };
    let s2 = with_lists(s1, s1.queue, s1.current.remove(elev_idx));
    lemma_ack_keeps_request(s2, order);
}

/// Asking for work for an elevator keeps every known request known.
proof fn lemma_want_keeps_request(s: ManagerView, completed: Order, o: Order)
    requires
        crate::order_list::contains_request(s.queue, s.current, o),
    ensures
        crate::order_list::contains_request(
            want_order_spec(s, completed).0.queue,
            want_order_spec(s, completed).0.current,
            o,
        ),
{
    broadcast use vstd::seq_lib::group_filter_ensures;

    if s.role == Role::Master && !s.current.contains_key(completed.elev_idx) {
        let pc = pseudo_cab(completed.cb.floor, completed.elev_idx);
        crate::assignment::lemma_next_order_is_for_completing_elevator(s.queue, pc);
        match next_assigned(s.queue, pc) {
            Some(a) => {
                let n = addressed_to(a, completed.elev_idx);
                let fin = want_order_spec(s, completed).0;
                assert(fin.current == s.current.insert(completed.elev_idx, a).insert(completed.elev_idx, n));
                assert(fin.queue == without_request(s.queue, a));
                if exists|k: usize| s.current.contains_key(k) && crate::order_list::same_request(
                    #[trigger] s.current[k],
                    o,
                ) {
                    let k = choose|k: usize|
                        s.current.contains_key(k) && crate::order_list::same_request(#[trigger] s.current[k], o);
                    assert(k != completed.elev_idx);
                    assert(fin.current[k] == s.current[k]);
                } else {
                    let i = choose|i: int|
                        0 <= i < s.queue.len() && crate::order_list::same_request(#[trigger] s.queue[i], o);
                    if crate::order_list::differs_from_request(a)(s.queue[i]) {
                        assert(fin.queue.contains(s.queue[i]));
                        let j = choose|j: int| 0 <= j < fin.queue.len() && fin.queue[j] == s.queue[i];
                        assert(crate::order_list::same_request(fin.queue[j], o));
                    } else {
                        assert(crate::order_list::same_request(fin.current[completed.elev_idx], o));
                    }
                }
            },
            None => {},
        }
    }
}

/// An order that did not complete in time is taken from its elevator but
/// not lost: afterwards its request is still queued or given to an elevator.
pub proof fn lemma_timed_out_order_is_kept(s: ManagerView, elev_idx: usize)
    requires
        s.role == Role::Master,
        s.current.contains_key(elev_idx),
    ensures
        crate::order_list::contains_request(
            order_timeout_spec(s, elev_idx).0.queue,
            order_timeout_spec(s, elev_idx).0.current,
            s.current[elev_idx],
        ),
{
    let order = s.current[elev_idx];
    let s1 = with_lists(s, s.queue, s.current.remove(elev_idx));
    lemma_ack_keeps_request(s1, order);
    let r2 = ack_spec(s1, MsgView::RequestOrder { order });
    lemma_want_keeps_request(r2.0, order, order);
}

/// Clearing orders in turn leaves this node's index as it was.
proof fn lemma_clear_fold_keeps_local(s: ManagerView, orders: Seq<Order>)
    ensures
        clear_fold(s, orders).0.local_idx == s.local_idx,
    decreases orders.len(),
{
    if orders.len() > 0 {
        lemma_clear_fold_keeps_local(s, orders.drop_last());
    }
}

/// Every order that is cleared is gone from the queue afterwards, and its
/// light was turned off when this node shows it.
proof fn lemma_clear_fold_clears(s: ManagerView, orders: Seq<Order>, o: Order)
    requires
        orders.contains(o),
    ensures
        !clear_fold(s, orders).0.queue.contains(o),
        order_is_for(o, s.local_idx) ==> clear_fold(s, orders).1.contains(
            ActionView::Command(ElevatorCommand::SetLight(o.cb, false)),
        ),
    decreases orders.len(),
{
    broadcast use vstd::seq_lib::group_filter_ensures;

    let rest = orders.drop_last();
    let r = clear_fold(s, rest);
    let last = orders.last();
    let fin = clear_fold(s, orders);
    let off = ActionView::Command(ElevatorCommand::SetLight(o.cb, false));
    lemma_clear_fold_keeps_local(s, rest);
    if last == o {
        if fin.0.queue.contains(o) {
            let i = choose|i: int| 0 <= i < fin.0.queue.len() && fin.0.queue[i] == o;
            assert(crate::order_list::differs_from_request(o)(fin.0.queue[i]));
        }
        if order_is_for(o, s.local_idx) {
            assert(fin.1[r.1.len() as int] == off);
        }
    } else {
        let k = choose|k: int| 0 <= k < orders.len() && orders[k] == o;
        assert(rest[k] == o);
        lemma_clear_fold_clears(s, rest, o);
        if fin.0.queue.contains(o) {
            r.0.queue.lemma_filter_contains_rev(crate::order_list::differs_from_request(last), o);
        }
        if order_is_for(o, s.local_idx) {
            let i = choose|i: int| 0 <= i < r.1.len() && r.1[i] == off;
            assert(fin.1[i] == off);
        }
    }
}

/// When the master handles the completion of an order at floor `f` by
/// elevator `e`, neither that order nor the cab order of `e` at `f` stays
/// queued, both are in the clear message sent to all nodes last, and both
/// lights go off when this node shows them: a cab call served by the stop
/// is not served again.
pub proof fn lemma_completion_clears_cab_call(s: ManagerView, order: Order)
    requires
        s.role == Role::Master,
    ensures
        ({
            let cab = Order { cb: CallButton { floor: order.cb.floor, call: CallType::Cab }, elev_idx: order.elev_idx };
            let fin = complete_spec(s, order).0;
            let acts = complete_spec(s, order).1;
            &&& !fin.queue.contains(cab)
            &&& !fin.queue.contains(order)
            &&& acts.len() > 0
            &&& acts.last() matches ActionView::Send(MsgView::ClearOrders { orders }) && orders.contains(order)
                && orders.contains(cab)
            &&& order.elev_idx == s.local_idx ==> acts.contains(
                ActionView::Command(ElevatorCommand::SetLight(cab.cb, false)),
            )
            &&& order_is_for(order, s.local_idx) ==> acts.contains(
                ActionView::Command(ElevatorCommand::SetLight(order.cb, false)),
            )
        }),
{
    let cab = Order { cb: CallButton { floor: order.cb.floor, call: CallType::Cab }, elev_idx: order.elev_idx };
    let r1 = if s.current.contains_key(order.elev_idx) {
        let c = s.current[order.elev_idx];
        if c == order {
            (
                with_lists(s, s.queue, s.current.remove(order.elev_idx)),
                seq![ActionView::ResetIdleWatchdog(order.elev_idx)],
            )
        } else {
            (with_lists(s, s.queue.push(c), s.current), seq![])
        }
    } else {
        (s, seq![])
    };
    let s2 = with_lists(r1.0, without_order(r1.0.queue, order), r1.0.current);
    let t = try_next_spec(s2, order);
    let r4 = send_order_spec(t.0, order, t.1);
    let clear = t.2;
    assert(clear.contains(order) && clear.contains(cab)) by {
        let base = if cab == order {
            seq![order]
        } else {
            seq![order, cab]
        };
        assert(base[0] == order);
        if cab != order {
            assert(base[1] == cab);
        }
        match next_choice(s2.queue, order).1 {
            None => {},
            Some(c) => if !base.contains(c) {
                assert(base.push(c)[0] == order);
                if cab != order {
                    assert(base.push(c)[1] == cab);
                }
            },
        }
    }
    assert(r4.0.local_idx == s.local_idx);
    lemma_clear_fold_clears(r4.0, clear, order);
    lemma_clear_fold_clears(r4.0, clear, cab);
    let r5 = clear_fold(r4.0, clear);
    let acts = r1.1 + r4.1 + r5.1 + seq![ActionView::Send(MsgView::ClearOrders { orders: clear })];
    assert(complete_spec(s, order) == (r5.0, acts));
    let off_cab = ActionView::Command(ElevatorCommand::SetLight(cab.cb, false));
    let off_order = ActionView::Command(ElevatorCommand::SetLight(order.cb, false));
    let pre = r1.1 + r4.1;
    if order.elev_idx == s.local_idx {
        let i = choose|i: int| 0 <= i < r5.1.len() && r5.1[i] == off_cab;
        assert(acts[pre.len() + i] == off_cab);
    }
    if order_is_for(order, s.local_idx) {
        let i = choose|i: int| 0 <= i < r5.1.len() && r5.1[i] == off_order;
        assert(acts[pre.len() + i] == off_order);
    }
}

/// Giving an order to an elevator records it as that elevator's order and
/// hands it to the local driver when the elevator is this node's own, and
/// otherwise sends it over the network, never both.
pub proof fn lemma_order_goes_to_its_elevator(s: ManagerView, completed: Order, n: Order)
    ensures
        send_order_spec(s, completed, Some(n)).0.current == s.current.insert(n.elev_idx, n),
        send_order_spec(s, completed, Some(n)).0.queue == s.queue,
        send_order_spec(s, completed, Some(n)).1.contains(ActionView::Command(ElevatorCommand::AssignOrder(n.cb)))
            <==> n.elev_idx == s.local_idx,
        send_order_spec(s, completed, Some(n)).1.contains(ActionView::Send(MsgView::AssignOrders { orders: seq![n] }))
            <==> n.elev_idx != s.local_idx,
{
    let acts = send_order_spec(s, completed, Some(n)).1;
    let local = ActionView::Command(ElevatorCommand::AssignOrder(n.cb));
    let remote = ActionView::Send(MsgView::AssignOrders { orders: seq![n] });
    assert(acts.len() == 4);
    if n.elev_idx == s.local_idx {
        assert(acts[3] == local);
        assert(!acts.contains(remote)) by {
            if acts.contains(remote) {
                let i = choose|i: int| 0 <= i < acts.len() && acts[i] == remote;
            }
        }
    } else {
        assert(acts[3] == remote);
        assert(!acts.contains(local)) by {
            if acts.contains(local) {
                let i = choose|i: int| 0 <= i < acts.len() && acts[i] == local;
            }
        }
    }
}

} // verus!
