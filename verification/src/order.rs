use vstd::prelude::*;

use crate::elevio::{CallButton, CallType};
use crate::msg::{Msg, MsgView};
use crate::types::ElevatorState;

verus! {

/// A call button press together with the elevator that registered it. A
/// cab order belongs to that elevator; a hall order can be served by any.
#[derive(Debug, Clone, Copy, PartialEq, Eq, Structural, Hash)]
pub struct Order {
    pub cb: CallButton,
    pub elev_idx: usize,
}

/// Whether elevator `elev_idx` may serve `order`: its own orders and all hall orders.
pub open spec fn order_is_for(order: Order, elev_idx: usize) -> bool {
    order.elev_idx == elev_idx || order.cb.call != CallType::Cab
}

impl Order {
    /// Whether elevator `elev_idx` may serve this order.
    pub fn is_for(&self, elev_idx: usize) -> (b: bool)
        ensures
            b == order_is_for(*self, elev_idx),
    {
        self.elev_idx == elev_idx || !matches!(self.cb.call, CallType::Cab)
    }
}

/// The role of a node in the cluster.
#[derive(Debug, Clone, Copy, PartialEq, Eq, Structural)]
pub enum Role {
    Master,
    Slave,
}

/// The next order for an elevator that completed one, and the hall order at
/// its floor that is served along with it, if any.
pub struct NextOrderResult {
    pub next: Option<Order>,
    pub clear: Option<Order>,
}

/// What the order manager reacts to.
pub enum Event {
    StateUpdateAndShare { states: Vec<ElevatorState> },
    StateUpdate { states: Vec<ElevatorState> },
    AlivesUpdate { alive_elevs: Vec<u8> },
    RequestOrder { order: Order },
    QueueOrders { orders: Vec<Order> },
    AssignOrders { orders: Vec<Order> },
    CompleteOrder { order: Order },
    ClearOrders { orders: Vec<Order> },
    AckReceived(Msg),
    OrderTimeout { elev_idx: usize },
    IdleTimeout { elev_idx: usize },
}

/// An event with its lists seen as sequences.
pub enum EventView {
    StateUpdateAndShare { states: Seq<ElevatorState> },
    StateUpdate { states: Seq<ElevatorState> },
    AlivesUpdate { alive_elevs: Seq<u8> },
    RequestOrder { order: Order },
    QueueOrders { orders: Seq<Order> },
    AssignOrders { orders: Seq<Order> },
    CompleteOrder { order: Order },
    ClearOrders { orders: Seq<Order> },
    AckReceived(MsgView),
    OrderTimeout { elev_idx: usize },
    IdleTimeout { elev_idx: usize },
}

impl View for Event {
    type V = EventView;

    open spec fn view(&self) -> EventView {
        match self {
            Event::StateUpdateAndShare { states } => EventView::StateUpdateAndShare { states: states@ },
            Event::StateUpdate { states } => EventView::StateUpdate { states: states@ },
            Event::AlivesUpdate { alive_elevs } => EventView::AlivesUpdate { alive_elevs: alive_elevs@ },
            Event::RequestOrder { order } => EventView::RequestOrder { order: *order },
            Event::QueueOrders { orders } => EventView::QueueOrders { orders: orders@ },
            Event::AssignOrders { orders } => EventView::AssignOrders { orders: orders@ },
            Event::CompleteOrder { order } => EventView::CompleteOrder { order: *order },
            Event::ClearOrders { orders } => EventView::ClearOrders { orders: orders@ },
            Event::AckReceived(m) => EventView::AckReceived(m@),
            Event::OrderTimeout { elev_idx } => EventView::OrderTimeout { elev_idx: *elev_idx },
            Event::IdleTimeout { elev_idx } => EventView::IdleTimeout { elev_idx: *elev_idx },
        }
    }
}

/// The event that a message from the network stands for, given this node's
/// role: an order request is handled by the master and only queued by a
/// slave, a state update is passed on by the master, and a heartbeat is no event.
pub open spec fn event_of_msg(msg: MsgView, role: Role) -> Option<EventView> {
    match msg {
        MsgView::RequestOrder { order } => if role == Role::Master {
            Some(EventView::RequestOrder { order })
        } else {
            Some(EventView::QueueOrders { orders: seq![order] })
        },
        MsgView::QueueOrders { orders } => Some(EventView::QueueOrders { orders }),
        MsgView::AssignOrders { orders } => Some(EventView::AssignOrders { orders }),
        MsgView::CompleteOrder { order } => Some(EventView::CompleteOrder { order }),
        MsgView::ClearOrders { orders } => Some(EventView::ClearOrders { orders }),
        MsgView::StateUpdate { states } => if role == Role::Master {
            Some(EventView::StateUpdateAndShare { states })
        } else {
            Some(EventView::StateUpdate { states })
        },
        MsgView::Heartbeat => None,
    }
}

/// The view of an optional event.
pub open spec fn opt_event_view(e: Option<Event>) -> Option<EventView> {
    match e {
        Some(ev) => Some(ev@),
        None => None,
    }
}

impl Event {
    /// The event that a message from the network stands for.
    pub fn from_msg(msg: Msg, role: &Role) -> (r: Option<Self>)
        ensures
            opt_event_view(r) == event_of_msg(msg@, *role),
    {
        match msg {
            Msg::RequestOrder { order } => {
                if matches!(role, Role::Master) {
                    Some(Event::RequestOrder { order })
                } else {
                    let orders = vec![order];
                    assert(orders@ =~= seq![order]);
                    Some(Event::QueueOrders { orders })
                }
            },
            Msg::QueueOrders { orders } => Some(Event::QueueOrders { orders }),
            Msg::AssignOrders { orders } => Some(Event::AssignOrders { orders }),
            Msg::CompleteOrder { order } => Some(Event::CompleteOrder { order }),
            Msg::ClearOrders { orders } => Some(Event::ClearOrders { orders }),
            Msg::StateUpdate { states } => match role {
                Role::Master => Some(Event::StateUpdateAndShare { states }),
                Role::Slave => Some(Event::StateUpdate { states }),
            },
            Msg::Heartbeat => None,
        }
    }
}

/// Only the heartbeat is no event; every other message stands for one.
pub proof fn lemma_only_heartbeat_is_dropped(msg: MsgView, role: Role)
    ensures
        event_of_msg(msg, role) is None <==> msg == MsgView::Heartbeat,
{
}

} // verus!
