use vstd::prelude::*;

use crate::order::Order;
use crate::types::ElevatorState;

verus! {

/// The messages that nodes exchange.
#[derive(Debug)]
pub enum Msg {
    RequestOrder { order: Order },
    QueueOrders { orders: Vec<Order> },
    AssignOrders { orders: Vec<Order> },
    CompleteOrder { order: Order },
    ClearOrders { orders: Vec<Order> },
    StateUpdate { states: Vec<ElevatorState> },
    Heartbeat,
}

/// A message with its lists seen as sequences.
pub enum MsgView {
    RequestOrder { order: Order },
    QueueOrders { orders: Seq<Order> },
    AssignOrders { orders: Seq<Order> },
    CompleteOrder { order: Order },
    ClearOrders { orders: Seq<Order> },
    StateUpdate { states: Seq<ElevatorState> },
    Heartbeat,
}

impl View for Msg {
    type V = MsgView;

    open spec fn view(&self) -> MsgView {
        match self {
            Msg::RequestOrder { order } => MsgView::RequestOrder { order: *order },
            Msg::QueueOrders { orders } => MsgView::QueueOrders { orders: orders@ },
            Msg::AssignOrders { orders } => MsgView::AssignOrders { orders: orders@ },
            Msg::CompleteOrder { order } => MsgView::CompleteOrder { order: *order },
            Msg::ClearOrders { orders } => MsgView::ClearOrders { orders: orders@ },
            Msg::StateUpdate { states } => MsgView::StateUpdate { states: states@ },
            Msg::Heartbeat => MsgView::Heartbeat,
        }
    }
}

pub(crate) fn clone_orders(v: &Vec<Order>) -> (r: Vec<Order>)
    ensures
        r@ == v@,
{
    let mut r: Vec<Order> = Vec::new();
    let mut i: usize = 0;
    while i < v.len()
        invariant
            0 <= i <= v@.len(),
            r@ == v@.take(i as int),
        decreases v@.len() - i,
    {
        r.push(v[i]);
        assert(v@.take(i + 1) =~= v@.take(i as int).push(v@[i as int]));
        i = i + 1;
    }
    assert(v@.take(v@.len() as int) =~= v@);
    r
}

pub(crate) fn clone_states(v: &Vec<ElevatorState>) -> (r: Vec<ElevatorState>)
    ensures
        r@ == v@,
{
    let mut r: Vec<ElevatorState> = Vec::new();
    let mut i: usize = 0;
    while i < v.len()
        invariant
            0 <= i <= v@.len(),
            r@ == v@.take(i as int),
        decreases v@.len() - i,
    {
        r.push(v[i]);
        assert(v@.take(i + 1) =~= v@.take(i as int).push(v@[i as int]));
        i = i + 1;
    }
    assert(v@.take(v@.len() as int) =~= v@);
    r
}

impl Msg {
    /// A message with the same kind and contents.
    pub fn copied(&self) -> (r: Msg)
        ensures
            r@ == self@,
    {
        match self {
            Msg::RequestOrder { order } => Msg::RequestOrder { order: *order },
            Msg::QueueOrders { orders } => Msg::QueueOrders { orders: clone_orders(orders) },
            Msg::AssignOrders { orders } => Msg::AssignOrders { orders: clone_orders(orders) },
            Msg::CompleteOrder { order } => Msg::CompleteOrder { order: *order },
            Msg::ClearOrders { orders } => Msg::ClearOrders { orders: clone_orders(orders) },
            Msg::StateUpdate { states } => Msg::StateUpdate { states: clone_states(states) },
            Msg::Heartbeat => Msg::Heartbeat,
        }
    }
}

fn orders_eq(a: &Vec<Order>, b: &Vec<Order>) -> (r: bool)
    ensures
        r == (a@ == b@),
{
    if a.len() != b.len() {
        return false;
    }
    let mut i: usize = 0;
    while i < a.len()
        invariant
            a@.len() == b@.len(),
            0 <= i <= a@.len(),
            forall|j: int| 0 <= j < i ==> a@[j] == b@[j],
        decreases a@.len() - i,
    {
        if a[i] != b[i] {
            return false;
        }
        i = i + 1;
    }
    assert(a@ =~= b@);
    true
}

fn states_eq(a: &Vec<ElevatorState>, b: &Vec<ElevatorState>) -> (r: bool)
    ensures
        r == (a@ == b@),
{
    if a.len() != b.len() {
        return false;
    }
    let mut i: usize = 0;
    while i < a.len()
        invariant
            a@.len() == b@.len(),
            0 <= i <= a@.len(),
            forall|j: int| 0 <= j < i ==> a@[j] == b@[j],
        decreases a@.len() - i,
    {
        if a[i] != b[i] {
            return false;
        }
        i = i + 1;
    }
    assert(a@ =~= b@);
    true
}

/// Whether two messages have the same kind and the same contents.
pub fn msg_eq(a: &Msg, b: &Msg) -> (r: bool)
    ensures
        r == (a@ == b@),
{
    match (a, b) {
        (Msg::RequestOrder { order: x }, Msg::RequestOrder { order: y }) => *x == *y,
        (Msg::QueueOrders { orders: x }, Msg::QueueOrders { orders: y }) => orders_eq(x, y),
        (Msg::AssignOrders { orders: x }, Msg::AssignOrders { orders: y }) => orders_eq(x, y),
        (Msg::CompleteOrder { order: x }, Msg::CompleteOrder { order: y }) => *x == *y,
        (Msg::ClearOrders { orders: x }, Msg::ClearOrders { orders: y }) => orders_eq(x, y),
        (Msg::StateUpdate { states: x }, Msg::StateUpdate { states: y }) => states_eq(x, y),
        (Msg::Heartbeat, Msg::Heartbeat) => true,
        _ => false,
    }
}

/// A datagram of the reliable transport: a numbered message, or the
/// acknowledgement of one, which repeats its number and its message.
pub enum Frame {
    Data { seq: u32, msg: Msg },
    Ack { seq: u32, msg: Msg },
}

/// Whether `frame` acknowledges message `msg` sent with number `seq`: it is
/// an acknowledgement with the same number and the same message.
pub fn acknowledges(frame: &Frame, seq: u32, msg: &Msg) -> (b: bool)
    ensures
        b == (frame matches Frame::Ack { seq: s, msg: m } && s == seq && m@ == msg@),
{
    match frame {
        Frame::Ack { seq: s, msg: m } => *s == seq && msg_eq(m, msg),
        Frame::Data { .. } => false,
    }
}

} // verus!
