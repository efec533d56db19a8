use vstd::prelude::*;

use super::CallButton;

verus! {

/// The agreed progress of an order.
#[derive(Debug, Clone, Copy, PartialEq, Eq, Structural)]
pub enum OrderPhase {
    New,
    Confirmed,
    Complete,
}

/// The rank of a phase: new, then confirmed, then complete.
pub open spec fn rank(p: OrderPhase) -> int {
    match p {
        OrderPhase::New => 0,
        OrderPhase::Confirmed => 1,
        OrderPhase::Complete => 2,
    }
}

/// An order shared by all elevators, with one acknowledgement bit per
/// elevator for its confirmation and for its completion.
#[derive(Debug, Clone, Copy)]
pub struct Order {
    pub call: CallButton,
    pub owner: usize,
    pub phase: OrderPhase,
    pub confirm_acks: u8,
    pub complete_acks: u8,
}

/// The acknowledgement bit of elevator `id`.
pub fn bit_for(id: usize) -> (b: u8)
    requires
        id < 8,
    ensures
        b == 1u8 << id,
{
    1u8 << id as u8
}

fn later(a: OrderPhase, b: OrderPhase) -> (r: OrderPhase)
    ensures
        r == (if rank(a) >= rank(b) {
            a
        } else {
            b
        }),
{
    let ra: u8 = match a {
        OrderPhase::New => 0,
        OrderPhase::Confirmed => 1,
        OrderPhase::Complete => 2,
    };
    let rb: u8 = match b {
        OrderPhase::New => 0,
        OrderPhase::Confirmed => 1,
        OrderPhase::Complete => 2,
    };
    if ra >= rb {
        a
    } else {
        b
    }
}

/// The phase after merging: the later of the two, raised to confirmed
/// when every elevator confirmed, and to complete when every elevator
/// completed.
pub open spec fn merged_phase(local: Order, remote: Order, all: u8) -> OrderPhase {
    let p = if rank(local.phase) >= rank(remote.phase) {
        local.phase
    } else {
        remote.phase
    };
    let p1 = if (local.confirm_acks | remote.confirm_acks) == all && rank(p) < 1 {
        OrderPhase::Confirmed
    } else {
        p
    };
    if (local.complete_acks | remote.complete_acks) == all {
        OrderPhase::Complete
    } else {
        p1
    }
}

/// Merges a remote copy of an order into the local one: the
/// acknowledgements are united and the phase advances as far as either
/// copy got, or as far as the united acknowledgements of all elevators
/// (the bits of `all`) allow.
pub fn merge_order(local: &mut Order, remote: &Order, all: u8)
    ensures
        final(local).call == old(local).call,
        final(local).owner == old(local).owner,
        final(local).confirm_acks == old(local).confirm_acks | remote.confirm_acks,
        final(local).complete_acks == old(local).complete_acks | remote.complete_acks,
        final(local).phase == merged_phase(*old(local), *remote, all),
        (old(local).complete_acks | remote.complete_acks) == all ==> final(local).phase == OrderPhase::Complete,
{
    local.confirm_acks = local.confirm_acks | remote.confirm_acks;
    local.complete_acks = local.complete_acks | remote.complete_acks;
    local.phase = later(local.phase, remote.phase);
    let confirmed_before = match local.phase {
        OrderPhase::New => false,
        _ => true,
    };
    if local.confirm_acks == all && !confirmed_before {
        local.phase = OrderPhase::Confirmed;
    }
    if local.complete_acks == all {
        local.phase = OrderPhase::Complete;
    }
}

/// Merging never loses an acknowledgement, never moves the phase back, and
/// reaches the phase of the remote copy.
pub proof fn lemma_merge_is_monotone(local: Order, remote: Order, all: u8)
    ensures
        (local.confirm_acks | remote.confirm_acks) & local.confirm_acks == local.confirm_acks,
        (local.confirm_acks | remote.confirm_acks) & remote.confirm_acks == remote.confirm_acks,
        (local.complete_acks | remote.complete_acks) & local.complete_acks == local.complete_acks,
        (local.complete_acks | remote.complete_acks) & remote.complete_acks == remote.complete_acks,
        rank(merged_phase(local, remote, all)) >= rank(local.phase),
        rank(merged_phase(local, remote, all)) >= rank(remote.phase),
{
    let a = local.confirm_acks;
    let b = remote.confirm_acks;
    let c = local.complete_acks;
    let d = remote.complete_acks;
    assert((a | b) & a == a) by (bit_vector);
    assert((a | b) & b == b) by (bit_vector);
    assert((c | d) & c == c) by (bit_vector);
    assert((c | d) & d == d) by (bit_vector);
}

/// The acknowledgements agreed after merging do not depend on which copy is local.
pub proof fn lemma_merge_acks_commute(a: Order, b: Order)
    ensures
        a.confirm_acks | b.confirm_acks == b.confirm_acks | a.confirm_acks,
        a.complete_acks | b.complete_acks == b.complete_acks | a.complete_acks,
{
    let x = a.confirm_acks;
    let y = b.confirm_acks;
    let z = a.complete_acks;
    let w = b.complete_acks;
    assert(x | y == y | x) by (bit_vector);
    assert(z | w == w | z) by (bit_vector);
}

/// The barriers of a merge: once the united completion acknowledgements
/// hold every elevator's bit the order is complete; once the united
/// confirmation acknowledgements do, it is at least confirmed; and an order
/// only becomes complete through the completion barrier or because one of
/// the two copies already was.
pub proof fn lemma_merge_barriers(local: Order, remote: Order, all: u8)
    ensures
        (local.complete_acks | remote.complete_acks) == all ==> merged_phase(local, remote, all)
            == OrderPhase::Complete,
        (local.confirm_acks | remote.confirm_acks) == all ==> merged_phase(local, remote, all)
            != OrderPhase::New,
        merged_phase(local, remote, all) == OrderPhase::Complete ==> {
            ||| (local.complete_acks | remote.complete_acks) == all
            ||| local.phase == OrderPhase::Complete
            ||| remote.phase == OrderPhase::Complete
        },
{
}

} // verus!
