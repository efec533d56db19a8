use vstd::prelude::*;

use std::collections::HashSet;

use crate::msg::{Frame, Msg, MsgView};
use crate::peers::{peer_msg_text, Peers};
use crate::pending::{awaits_alive, opt_msg_view, resolved, restricted, PendingMap, PendingEntry};

verus! {

broadcast use vstd::std_specs::hash::group_hash_axioms;

/// How often a failed send is tried again before the node gives up on the peer.
pub const MAX_APP_RETRIES: u32 = 20;

/// How long a received message is remembered, in milliseconds, so that a
/// retransmission of it is not delivered twice.
pub const DEDUP_WINDOW_MS: u64 = 3000;

/// What the network layer hands to the order manager.
pub enum NetworkEvent {
    /// A message from a peer, delivered once.
    Message(Msg),
    /// A message of this node that every peer it went to acknowledged or gave up on.
    AckComplete(Msg),
}

/// A network event with its message seen as a value.
pub enum NetEventView {
    Message(MsgView),
    AckComplete(MsgView),
}

impl View for NetworkEvent {
    type V = NetEventView;

    open spec fn view(&self) -> NetEventView {
        match self {
            NetworkEvent::Message(m) => NetEventView::Message(m@),
            NetworkEvent::AckComplete(m) => NetEventView::AckComplete(m@),
        }
    }
}

/// What the network layer asks the application to do.
pub enum NetAction {
    /// Hand an event to the order manager.
    Emit(NetworkEvent),
    /// Send `msg` reliably to `peer` at `addr` under number `seq`; `retry`
    /// counts the earlier attempts that failed.
    Send { msg: Msg, addr: String, seq: u32, peer: u8, retry: u32 },
}

/// An action with its message and address seen as values.
pub enum NetActionView {
    Emit(NetEventView),
    Send { msg: MsgView, addr: Seq<char>, seq: u32, peer: u8, retry: u32 },
}

impl View for NetAction {
    type V = NetActionView;

    open spec fn view(&self) -> NetActionView {
        match self {
            NetAction::Emit(e) => NetActionView::Emit(e@),
            NetAction::Send { msg, addr, seq, peer, retry } => NetActionView::Send {
                msg: msg@,
                addr: addr@,
                seq: *seq,
                peer: *peer,
                retry: *retry,
            },
        }
    }
}

/// The views of a list of actions.
pub open spec fn action_views(v: Seq<NetAction>) -> Seq<NetActionView> {
    v.map_values(|a: NetAction| a@)
}

/// The peers a message of this node goes to: every peer from the master,
/// the master from a slave.
pub open spec fn targets_of(is_master: bool, ids: Seq<u8>, master_id: Option<u8>) -> Seq<u8> {
    if is_master {
        ids
    } else {
        match master_id {
            Some(m) => seq![m],
            None => Seq::empty(),
        }
    }
}

/// The test for an id among `ids`.
pub open spec fn in_ids(ids: Seq<u8>) -> spec_fn(u8) -> bool {
    |x: u8| ids.contains(x)
}

/// The send of `msg` under `seq` to a peer, at its message address.
pub open spec fn send_to(msg: MsgView, seq: u32, retry: u32) -> spec_fn(u8) -> NetActionView {
    |id: u8| NetActionView::Send { msg, addr: peer_msg_text(id), seq, peer: id, retry }
}

/// The sends of `msg` under `seq` to those of `targets` that have an address.
pub open spec fn sends_to(targets: Seq<u8>, ids: Seq<u8>, msg: MsgView, seq: u32) -> Seq<NetActionView> {
    targets.filter(in_ids(ids)).map_values(send_to(msg, seq, 0))
}

/// A remembered message: its number, its sender's address, and when it came.
pub type SeenEntry = (u32, Seq<char>, u64);

/// `now - at`, or zero for a time from the future.
pub open spec fn elapsed(now: u64, at: u64) -> u64 {
    if now >= at {
        (now - at) as u64
    } else {
        0
    }
}

/// The test for an entry that came less than the window before `now`.
pub open spec fn fresh(now: u64) -> spec_fn(SeenEntry) -> bool {
    |e: SeenEntry| elapsed(now, e.2) < DEDUP_WINDOW_MS
}

/// Whether an entry is for message `seq` from `sender`.
pub open spec fn same_key(e: SeenEntry, seq: u32, sender: Seq<char>) -> bool {
    e.0 == seq && e.1 == sender
}

/// Whether `s` remembers message `seq` from `sender`.
pub open spec fn remembers(s: Seq<SeenEntry>, seq: u32, sender: Seq<char>) -> bool {
    exists|i: int| 0 <= i < s.len() && same_key(#[trigger] s[i], seq, sender)
}

/// An entry with its time set to `now` when it is for `seq` from `sender`.
pub open spec fn touch(seq: u32, sender: Seq<char>, now: u64) -> spec_fn(SeenEntry) -> SeenEntry {
    |e: SeenEntry| if same_key(e, seq, sender) {
        (e.0, e.1, now)
    } else {
        e
    }
}

/// One receipt of message `seq` from `sender` at `now`: entries older than
/// the window are forgotten; the message is delivered when it is not
/// remembered then, and it is remembered as received at `now` either way.
pub open spec fn dedup_step(s: Seq<SeenEntry>, seq: u32, sender: Seq<char>, now: u64) -> (
    Seq<SeenEntry>,
    bool,
) {
    let kept = s.filter(fresh(now));
    if remembers(kept, seq, sender) {
        (kept.map_values(touch(seq, sender, now)), false)
    } else {
        (kept.push((seq, sender, now)), true)
    }
}

/// Whether `evs` reports, in the order of `ks`, the completion of each
/// message of `p` that awaits no peer of `alive`, each once.
pub open spec fn reports_completed(
    ks: Seq<u32>,
    evs: Seq<NetworkEvent>,
    p: Map<u32, PendingEntry>,
    alive: Set<u8>,
) -> bool {
    &&& ks.len() == evs.len()
    &&& ks.no_duplicates()
    &&& forall|k: u32| #[trigger] ks.contains(k) <==> (p.contains_key(k) && !awaits_alive(p[k], alive))
    &&& forall|i: int| 0 <= i < evs.len() ==> #[trigger] evs[i]@ == NetEventView::AckComplete(p[ks[i]].1)
}

/// The remembered messages after a run of receipts, each a number, a sender
/// and a time, taken in order.
pub open spec fn dedup_run(s: Seq<SeenEntry>, steps: Seq<SeenEntry>) -> Seq<SeenEntry>
    decreases steps.len(),
{
    if steps.len() == 0 {
        s
    } else {
        dedup_run(dedup_step(s, steps[0].0, steps[0].1, steps[0].2).0, steps.drop_first())
    }
}

/// Whether `s` remembers message `seq` from `sender` as received at a time
/// in the window that starts at `t`.
pub open spec fn remembered_within(s: Seq<SeenEntry>, seq: u32, sender: Seq<char>, t: u64) -> bool {
    exists|i: int|
        0 <= i < s.len() && same_key(#[trigger] s[i], seq, sender) && t <= s[i].2 && s[i].2 < t
            + DEDUP_WINDOW_MS
}

/// A receipt within the window keeps a message remembered within it.
proof fn lemma_step_keeps(s: Seq<SeenEntry>, seq: u32, sender: Seq<char>, t: u64, q: SeenEntry)
    requires
        remembered_within(s, seq, sender, t),
        t <= q.2 < t + DEDUP_WINDOW_MS,
    ensures
        remembered_within(dedup_step(s, q.0, q.1, q.2).0, seq, sender, t),
{
    let i = choose|i: int|
        0 <= i < s.len() && same_key(#[trigger] s[i], seq, sender) && t <= s[i].2 && s[i].2 < t
            + DEDUP_WINDOW_MS;
    let pred = fresh(q.2);
    let kept = s.filter(pred);
    broadcast use vstd::seq_lib::group_filter_ensures;
    assert(pred(s[i]));
    assert(kept.contains(s[i]));
    let j = choose|j: int| 0 <= j < kept.len() && kept[j] == s[i];
    if remembers(kept, q.0, q.1) {
        let m = kept.map_values(touch(q.0, q.1, q.2));
        assert(same_key(m[j], seq, sender));
    } else {
        let m = kept.push((q.0, q.1, q.2));
        assert(m[j] == kept[j]);
    }
}

/// A run of receipts within the window keeps a message remembered within it.
proof fn lemma_run_keeps(s: Seq<SeenEntry>, seq: u32, sender: Seq<char>, t: u64, steps: Seq<SeenEntry>)
    requires
        remembered_within(s, seq, sender, t),
        forall|k: int| 0 <= k < steps.len() ==> t <= #[trigger] steps[k].2 < t + DEDUP_WINDOW_MS,
    ensures
        remembered_within(dedup_run(s, steps), seq, sender, t),
    decreases steps.len(),
{
    if steps.len() > 0 {
        lemma_step_keeps(s, seq, sender, t, steps[0]);
        let rest = steps.drop_first();
        assert forall|k: int| 0 <= k < rest.len() implies t <= #[trigger] rest[k].2 < t + DEDUP_WINDOW_MS by {
            assert(rest[k] == steps[k + 1]);
        }
        lemma_run_keeps(dedup_step(s, steps[0].0, steps[0].1, steps[0].2).0, seq, sender, t, rest);
    }
}

/// No message is delivered twice within the window: once message `seq`
/// from `sender` was received at `t1`, whatever other receipts follow
/// within the window, a receipt of it again at a time `t2` within the
/// window is not delivered.
pub proof fn lemma_no_redelivery_within_window(
    s: Seq<SeenEntry>,
    seq: u32,
    sender: Seq<char>,
    t1: u64,
    steps: Seq<SeenEntry>,
    t2: u64,
)
    requires
        forall|k: int| 0 <= k < steps.len() ==> t1 <= #[trigger] steps[k].2 < t1 + DEDUP_WINDOW_MS,
        t1 <= t2 < t1 + DEDUP_WINDOW_MS,
    ensures
        !dedup_step(dedup_run(dedup_step(s, seq, sender, t1).0, steps), seq, sender, t2).1,
{
    let first = dedup_step(s, seq, sender, t1);
    let kept = s.filter(fresh(t1));
    if remembers(kept, seq, sender) {
        let j = choose|j: int| 0 <= j < kept.len() && same_key(#[trigger] kept[j], seq, sender);
        assert(same_key(first.0[j], seq, sender) && first.0[j].2 == t1);
    } else {
        assert(first.0[kept.len() as int] == (seq, sender, t1));
    }
    assert(remembered_within(first.0, seq, sender, t1));
    lemma_run_keeps(first.0, seq, sender, t1, steps);
    let s2 = dedup_run(first.0, steps);
    let i = choose|i: int|
        0 <= i < s2.len() && same_key(#[trigger] s2[i], seq, sender) && t1 <= s2[i].2 && s2[i].2 < t1
            + DEDUP_WINDOW_MS;
    broadcast use vstd::seq_lib::group_filter_ensures;
    assert(fresh(t2)(s2[i]));
    assert(s2.filter(fresh(t2)).contains(s2[i]));
    let j = choose|j: int| 0 <= j < s2.filter(fresh(t2)).len() && s2.filter(fresh(t2))[j] == s2[i];
    assert(same_key(s2.filter(fresh(t2))[j], seq, sender));
}

/// How long a sender waits for an acknowledgement before it sends the
/// datagram again, in milliseconds.
pub const ACK_TIMEOUT_MS: u64 = 5;

/// How many times a sender sends a datagram before it gives up.
pub const MAX_SEND_ATTEMPTS: u32 = 10000;

/// How many copies of each acknowledgement a receiver sends.
pub const ACK_COPIES: u32 = 3;

/// What a reliable send does after an attempt.
#[derive(Debug, Clone, Copy, PartialEq, Eq, Structural)]
pub enum AttemptOutcome {
    /// The matching acknowledgement came: the send succeeded.
    Delivered,
    /// Send the datagram again.
    Retry,
    /// The attempts are used up: the send failed.
    GiveUp,
}

/// The decision after attempt `attempt` (counted from zero) of a reliable
/// send: done when it was acknowledged, else another try while attempts
/// are left, else failure.
pub fn after_attempt(attempt: u32, acked: bool) -> (r: AttemptOutcome)
    ensures
        r == (if acked {
            AttemptOutcome::Delivered
        } else if attempt + 1 < MAX_SEND_ATTEMPTS {
            AttemptOutcome::Retry
        } else {
            AttemptOutcome::GiveUp
        }),
{
    if acked {
        AttemptOutcome::Delivered
    } else if attempt < MAX_SEND_ATTEMPTS - 1 {
        AttemptOutcome::Retry
    } else {
        AttemptOutcome::GiveUp
    }
}

/// What a receiver does with a frame: a data frame is delivered, with its
/// number, and answered by an acknowledgement that repeats the number and
/// the message; an acknowledgement that reaches the receiving socket is
/// ignored.
pub fn accept_frame(frame: Frame) -> (r: Option<(u32, Msg, Frame)>)
    ensures
        match frame {
            Frame::Data { seq, msg } => (r matches Some((s, m, a)) && s == seq && m@ == msg@ && (a matches Frame::Ack {
                seq: s2,
                msg: m2,
            } && s2 == seq && m2@ == msg@)),
            Frame::Ack { .. } => r is None,
        },
{
    match frame {
        Frame::Data { seq, msg } => {
            let ack = Frame::Ack { seq, msg: msg.copied() };
            Some((seq, msg, ack))
        },
        Frame::Ack { .. } => None,
    }
}

/// The acknowledgements a receiver sends for message `msg` received under
/// `seq`: `ACK_COPIES` frames, each repeating the number and the message.
pub fn ack_copies(seq: u32, msg: &Msg) -> (r: Vec<Frame>)
    ensures
        r@.len() == ACK_COPIES,
        forall|i: int|
            0 <= i < r@.len() ==> (#[trigger] r@[i] matches Frame::Ack { seq: s, msg: m } && s == seq && m@ == msg@),
{
    let mut out: Vec<Frame> = Vec::new();
    let mut i: u32 = 0;
    while i < ACK_COPIES
        invariant
            0 <= i <= ACK_COPIES,
            out@.len() == i,
            forall|k: int|
                0 <= k < out@.len() ==> (#[trigger] out@[k] matches Frame::Ack { seq: s, msg: m } && s == seq && m@
                    == msg@),
        decreases ACK_COPIES - i,
    {
        out.push(Frame::Ack { seq, msg: msg.copied() });
        i = i + 1;
    }
    out
}

/// The network layer's own state: this node's id, its peers, the messages
/// awaiting acknowledgement, the next sequence number, and the messages
/// received lately. A received message is known by its number and the text
/// of its sender's address; these entries are kept in a list, with a new
/// entry per receipt of a message not already in it, since a map keyed by
/// text is not one whose operations are proved here.
pub struct NetworkState {
    my_id: u8,
    peers: Peers,
    pending: PendingMap,
    seq: u32,
    seen: Vec<(u32, String, u64)>,
}

/// The view of the remembered messages.
pub open spec fn seen_views(v: Seq<(u32, String, u64)>) -> Seq<SeenEntry> {
    v.map_values(|e: (u32, String, u64)| (e.0, e.1@, e.2))
}

impl NetworkState {
    /// This node's id.
    pub closed spec fn my_id_view(&self) -> u8 {
        self.my_id
    }

    /// The peers.
    pub closed spec fn peers_view(&self) -> Peers {
        self.peers
    }

    /// The messages awaiting acknowledgement.
    pub closed spec fn pending_view(&self) -> Map<u32, PendingEntry> {
        self.pending@
    }

    /// The sequence number of the next outgoing message.
    pub closed spec fn seq_view(&self) -> u32 {
        self.seq
    }

    /// The messages received lately.
    pub closed spec fn seen_view(&self) -> Seq<SeenEntry> {
        seen_views(self.seen@)
    }

    /// The state of node `my_id` before it hears from anyone.
    pub fn new(my_id: u8) -> (s: Self)
        ensures
            s.my_id_view() == my_id,
            !s.peers_view().master_view(),
            s.peers_view().master_id_view() is None,
            s.peers_view().ids_view() == Seq::<u8>::empty(),
            s.pending_view() == Map::<u32, PendingEntry>::empty(),
            s.seq_view() == 0,
            s.seen_view() == Seq::<SeenEntry>::empty(),
    {
        let s = NetworkState {
            my_id,
            peers: Peers::new(),
            pending: PendingMap::new(),
            seq: 0,
            seen: Vec::new(),
        };
        assert(s.seen_view() =~= Seq::<SeenEntry>::empty());
        s
    }

    /// A new alive list: the peers follow it, every pending message stops
    /// waiting for peers that are gone, and each one that then waits for
    /// nobody is reported complete, once.
    pub fn on_alive_update(&mut self, alive: &[u8]) -> (r: Vec<NetworkEvent>)
        ensures
            final(self).my_id_view() == old(self).my_id_view(),
            final(self).seq_view() == old(self).seq_view(),
            final(self).seen_view() == old(self).seen_view(),
            final(self).peers_view().master_id_view() == crate::peers::first_alive(alive@),
            final(self).peers_view().master_view() == (crate::peers::first_alive(alive@) == Some(
                old(self).my_id_view(),
            )),
            final(self).peers_view().ids_view() == crate::peers::others(alive@, old(self).my_id_view()),
            final(self).pending_view() == restricted(old(self).pending_view(), alive@.to_set()),
            exists|ks: Seq<u32>| #[trigger] reports_completed(ks, r@, old(self).pending_view(), alive@.to_set()),
    {
        let alive_set = self.peers.update(alive, self.my_id);
        let done = self.pending.remove_dead_elevators(&alive_set);
        let ghost p0 = old(self).pending_view();
        let ghost ks = done@.map_values(|e: (u32, Msg)| e.0);
        let mut out: Vec<NetworkEvent> = Vec::new();
        let n = done.len();
        let mut done = done;
        let ghost done0 = done@;
        // the messages are moved out from the back of the list, and moved
        // once more so that they come out in the order of the list
        while done.len() > 0
            invariant
                done0.len() == n,
                done@ == done0.take(done@.len() as int),
                out@.len() + done@.len() == n,
                forall|i: int|
                    0 <= i < out@.len() ==> #[trigger] out@[i]@ == NetEventView::AckComplete(
                        done0[n - 1 - i].1@,
                    ),
            decreases done@.len(),
        {
            let ghost len = done@.len();
            let (_k, m) = done.pop().unwrap();
            proof {
                assert(done0.take(len as int)[len - 1] == done0[len - 1]);
                assert(done@ =~= done0.take(len - 1));
            }
            out.push(NetworkEvent::AckComplete(m));
        }
        let mut events: Vec<NetworkEvent> = Vec::new();
        while out.len() > 0
            invariant
                out@.len() + events@.len() == n,
                forall|i: int|
                    0 <= i < out@.len() ==> #[trigger] out@[i]@ == NetEventView::AckComplete(
                        done0[n - 1 - i].1@,
                    ),
                forall|i: int|
                    0 <= i < events@.len() ==> #[trigger] events@[i]@ == NetEventView::AckComplete(
                        done0[i].1@,
                    ),
            decreases out@.len(),
        {
            let ghost len = out@.len();
            let e = out.pop().unwrap();
            proof {
                assert(e@ == NetEventView::AckComplete(done0[n - len].1@));
            }
            events.push(e);
        }
        proof {
            let alive_set_v = alive@.to_set();
            assert(ks.len() == events@.len());
            assert forall|a: int, b: int| 0 <= a < ks.len() && 0 <= b < ks.len() && a != b implies ks[a]
                != ks[b] by {
                if a < b {
                    assert(done0[a].0 != done0[b].0);
                } else {
                    assert(done0[b].0 != done0[a].0);
                }
            }
            assert forall|k: u32| #[trigger]
                ks.contains(k) <==> (p0.contains_key(k) && !awaits_alive(p0[k], alive_set_v)) by {
                if ks.contains(k) {
                    let i = choose|i: int| 0 <= i < ks.len() && ks[i] == k;
                    assert(done0[i].0 == k);
                }
                if p0.contains_key(k) && !awaits_alive(p0[k], alive_set_v) {
                    let i = choose|i: int| 0 <= i < done0.len() && #[trigger] done0[i].0 == k;
                    assert(ks[i] == k);
                }
            }
            assert forall|i: int| 0 <= i < events@.len() implies #[trigger] events@[i]@
                == NetEventView::AckComplete(p0[ks[i]].1) by {
                assert(done0[i].1@ == p0[done0[i].0].1);
            }
            assert(reports_completed(ks, events@, p0, alive_set_v));
        }
        events
    }

    /// An outgoing message: it goes under the next sequence number to the
    /// peers it is for, which are then awaited; with nobody to send it to,
    /// it is complete at once. The sequence number moves on either way.
    pub fn on_outgoing(&mut self, msg: Msg) -> (r: Vec<NetAction>)
        ensures
            final(self).my_id_view() == old(self).my_id_view(),
            final(self).peers_view() == old(self).peers_view(),
            final(self).seen_view() == old(self).seen_view(),
            final(self).seq_view() == old(self).seq_view().wrapping_add(1),
            ({
                let p = old(self).peers_view();
                let t = targets_of(p.master_view(), p.ids_view(), p.master_id_view());
                if t.len() == 0 {
                    &&& final(self).pending_view() == old(self).pending_view()
                    &&& action_views(r@) == seq![NetActionView::Emit(NetEventView::AckComplete(msg@))]
                } else {
                    &&& final(self).pending_view() == old(self).pending_view().insert(
                        old(self).seq_view(),
                        (t.to_set(), msg@),
                    )
                    &&& action_views(r@) == sends_to(t, p.ids_view(), msg@, old(self).seq_view())
                }
            }),
    {
        let ghost p = self.peers;
        let mut targets: Vec<u8> = Vec::new();
        if self.peers.is_master() {
            let ids = self.peers.ids();
            let mut i: usize = 0;
            while i < ids.len()
                invariant
                    0 <= i <= ids@.len(),
                    targets@ == ids@.take(i as int),
                decreases ids@.len() - i,
            {
                targets.push(ids[i]);
                proof {
                    assert(ids@.take(i + 1) =~= ids@.take(i as int).push(ids@[i as int]));
                }
                i = i + 1;
            }
            proof {
                assert(ids@.take(ids@.len() as int) =~= ids@);
            }
        } else {
            match self.peers.master_id() {
                Some(m) => {
                    targets.push(m);
                },
                None => {},
            }
        }
        let ghost t = targets_of(p.master_view(), p.ids_view(), p.master_id_view());
        assert(targets@ =~= t);
        let mut actions: Vec<NetAction> = Vec::new();
        if targets.len() == 0 {
            actions.push(NetAction::Emit(NetworkEvent::AckComplete(msg)));
            assert(action_views(actions@) =~= seq![NetActionView::Emit(NetEventView::AckComplete(msg@))]);
        } else {
            let ghost pred = in_ids(p.ids_view());
            let ghost f = send_to(msg@, self.seq, 0);
            let mut expected: HashSet<u8> = HashSet::new();
            let mut i: usize = 0;
            proof {
                assert(t.take(0).filter(pred) =~= Seq::<u8>::empty()) by {
                    reveal(Seq::filter);
                }
                assert(action_views(actions@) =~= t.take(0).filter(pred).map_values(f));
                assert(t.take(0).to_set() =~= Set::<u8>::empty());
            }
            while i < targets.len()
                invariant
                    targets@ == t,
                    0 <= i <= t.len(),
                    self.peers == p,
                    pred == in_ids(p.ids_view()),
                    f == send_to(msg@, self.seq, 0),
                    expected@ == t.take(i as int).to_set(),
                    action_views(actions@) == t.take(i as int).filter(pred).map_values(f),
                decreases t.len() - i,
            {
                let id = targets[i];
                proof {
                    assert(t.take(i + 1) =~= t.take(i as int).push(id));
                    t.take(i as int).lemma_push_to_set_commute(id);
                    t.take(i as int).lemma_filter_push(id, pred);
                }
                expected.insert(id);
                let ghost before = actions@;
                match self.peers.addr(id) {
                    Some(a) => {
                        actions.push(
                            NetAction::Send {
                                msg: msg.copied(),
                                addr: a.clone(),
                                seq: self.seq,
                                peer: id,
                                retry: 0,
                            },
                        );
                        proof {
                            assert(action_views(actions@) =~= action_views(before).push(f(id)));
                            assert(t.take(i as int).filter(pred).push(id).map_values(f) =~= t.take(
                                i as int,
                            ).filter(pred).map_values(f).push(f(id)));
                        }
                    },
                    None => {},
                }
                i = i + 1;
            }
            proof {
                assert(t.take(t.len() as int) =~= t);
            }
            self.pending.insert(self.seq, expected, msg);
        }
        self.seq = self.seq.wrapping_add(1);
        actions
    }

    /// `peer` acknowledged message `seq`; when it was the last one awaited,
    /// the message is complete.
    pub fn on_ack(&mut self, seq: u32, peer: u8) -> (r: Option<NetworkEvent>)
        ensures
            final(self).my_id_view() == old(self).my_id_view(),
            final(self).peers_view() == old(self).peers_view(),
            final(self).seen_view() == old(self).seen_view(),
            final(self).seq_view() == old(self).seq_view(),
            final(self).pending_view() == resolved(old(self).pending_view(), seq, peer).0,
            match resolved(old(self).pending_view(), seq, peer).1 {
                Some(m) => (r matches Some(e) && e@ == NetEventView::AckComplete(m)),
                None => r is None,
            },
    {
        match self.pending.resolve_peer(seq, peer) {
            Some(m) => Some(NetworkEvent::AckComplete(m)),
            None => None,
        }
    }

    /// A reliable send of message `seq` to `failed_peer` gave up. A slave
    /// whose master changed sends it to the new master instead; a peer
    /// still alive gets another try, up to `MAX_APP_RETRIES`; otherwise
    /// the peer is no longer awaited.
    pub fn on_send_failure(&mut self, seq: u32, failed_peer: u8, msg: Msg, addr: String, retry: u32) -> (r:
        Vec<NetAction>)
        ensures
            final(self).my_id_view() == old(self).my_id_view(),
            final(self).peers_view() == old(self).peers_view(),
            final(self).seen_view() == old(self).seen_view(),
            final(self).seq_view() == old(self).seq_view(),
            ({
                let p = old(self).peers_view();
                let m = p.master_id_view()->0;
                if !p.master_view() && p.master_id_view() is Some && m != failed_peer
                    && p.ids_view().contains(m) {
                    &&& final(self).pending_view() == (if old(self).pending_view().contains_key(seq) {
                        old(self).pending_view().insert(
                            seq,
                            (
                                old(self).pending_view()[seq].0.remove(failed_peer).insert(m),
                                old(self).pending_view()[seq].1,
                            ),
                        )
                    } else {
                        old(self).pending_view()
                    })
                    &&& action_views(r@) == seq![send_to(msg@, seq, 0)(m)]
                } else if retry < MAX_APP_RETRIES && p.ids_view().contains(failed_peer) {
                    &&& final(self).pending_view() == old(self).pending_view()
                    &&& action_views(r@) == seq![
                        NetActionView::Send {
                            msg: msg@,
                            addr: addr@,
                            seq,
                            peer: failed_peer,
                            retry: (retry + 1) as u32,
                        },
                    ]
                } else {
                    &&& final(self).pending_view() == resolved(
                        old(self).pending_view(),
                        seq,
                        failed_peer,
                    ).0
                    &&& action_views(r@) == match resolved(
                        old(self).pending_view(),
                        seq,
                        failed_peer,
                    ).1 {
                        Some(m) => seq![NetActionView::Emit(NetEventView::AckComplete(m))],
                        None => Seq::<NetActionView>::empty(),
                    }
                }
            }),
    {
        let mut actions: Vec<NetAction> = Vec::new();
        if !self.peers.is_master() {
            if let Some(new_master) = self.peers.master_id() {
                if new_master != failed_peer {
                    if let Some(new_addr) = self.peers.addr(new_master) {
                        let a = new_addr.clone();
                        self.pending.retarget(seq, failed_peer, new_master);
                        actions.push(NetAction::Send { msg, addr: a, seq, peer: new_master, retry: 0 });
                        assert(action_views(actions@) =~= seq![send_to(msg@, seq, 0)(new_master)]);
                        return actions;
                    }
                }
            }
        }
        if retry < MAX_APP_RETRIES && slice_contains(self.peers.ids(), failed_peer) {
            actions.push(NetAction::Send { msg, addr, seq, peer: failed_peer, retry: retry + 1 });
            assert(action_views(actions@) =~= seq![
                NetActionView::Send { msg: msg@, addr: addr@, seq, peer: failed_peer, retry: (retry + 1) as u32 },
            ]);
            return actions;
        }
        match self.pending.resolve_peer(seq, failed_peer) {
            Some(m) => {
                actions.push(NetAction::Emit(NetworkEvent::AckComplete(m)));
            },
            None => {},
        }
        assert(action_views(actions@) =~= match resolved(old(self).pending_view(), seq, failed_peer).1 {
            Some(m) => seq![NetActionView::Emit(NetEventView::AckComplete(m))],
            None => Seq::<NetActionView>::empty(),
        });
        actions
    }

    /// Message `seq` from `sender` arrived at `now_ms`. Messages older
    /// than the window are forgotten; the message is delivered unless it
    /// is still remembered, and it is remembered as received now.
    pub fn on_incoming(&mut self, msg: Msg, seq: u32, sender: &String, now_ms: u64) -> (r: Option<
        NetworkEvent,
    >)
        ensures
            final(self).my_id_view() == old(self).my_id_view(),
            final(self).peers_view() == old(self).peers_view(),
            final(self).pending_view() == old(self).pending_view(),
            final(self).seq_view() == old(self).seq_view(),
            final(self).seen_view() == dedup_step(old(self).seen_view(), seq, sender@, now_ms).0,
            dedup_step(old(self).seen_view(), seq, sender@, now_ms).1 ==> (r matches Some(e) && e@
                == NetEventView::Message(msg@)),
            !dedup_step(old(self).seen_view(), seq, sender@, now_ms).1 ==> r is None,
    {
        let ghost s0 = self.seen_view();
        let ghost pred = fresh(now_ms);
        let mut kept: Vec<(u32, String, u64)> = Vec::new();
        let mut i: usize = 0;
        proof {
            assert(s0.take(0).filter(pred) =~= Seq::<SeenEntry>::empty()) by {
                reveal(Seq::filter);
            }
            assert(seen_views(kept@) =~= s0.take(0).filter(pred));
        }
        while i < self.seen.len()
            invariant
                s0 == seen_views(self.seen@),
                pred == fresh(now_ms),
                0 <= i <= self.seen@.len(),
                seen_views(kept@) == s0.take(i as int).filter(pred),
            decreases self.seen@.len() - i,
        {
            let e = &self.seen[i];
            let ghost ev: SeenEntry = (e.0, e.1@, e.2);
            proof {
                assert(s0[i as int] == ev);
                assert(s0.take(i + 1) =~= s0.take(i as int).push(ev));
                s0.take(i as int).lemma_filter_push(ev, pred);
            }
            if now_ms.saturating_sub(e.2) < DEDUP_WINDOW_MS {
                let ghost before = kept@;
                kept.push((e.0, e.1.clone(), e.2));
                assert(seen_views(kept@) =~= seen_views(before).push(ev));
            }
            i = i + 1;
        }
        proof {
            assert(s0.take(s0.len() as int) =~= s0);
        }
        let ghost k0 = seen_views(kept@);
        let mut found = false;
        let mut j: usize = 0;
        while j < kept.len()
            invariant
                0 <= j <= kept@.len(),
                k0.len() == kept@.len(),
                forall|a: int|
                    #![trigger kept@[a]]
                    0 <= a < kept@.len() ==> (kept@[a].0, kept@[a].1@) == (k0[a].0, k0[a].1),
                forall|a: int|
                    #![trigger kept@[a]]
                    j <= a < kept@.len() ==> kept@[a].2 == k0[a].2,
                forall|a: int|
                    #![trigger kept@[a]]
                    0 <= a < j ==> kept@[a].2 == touch(seq, sender@, now_ms)(k0[a]).2,
                found == exists|a: int| 0 <= a < j && same_key(#[trigger] k0[a], seq, sender@),
            decreases kept@.len() - j,
        {
            if kept[j].0 == seq && kept[j].1 == *sender {
                kept[j].2 = now_ms;
                found = true;
            }
            j = j + 1;
        }
        proof {
            assert(found == remembers(k0, seq, sender@));
        }
        if found {
            proof {
                assert(seen_views(kept@) =~= k0.map_values(touch(seq, sender@, now_ms)));
            }
            self.seen = kept;
            None
        } else {
            proof {
                assert(seen_views(kept@) =~= k0);
            }
            kept.push((seq, sender.clone(), now_ms));
            proof {
                assert(seen_views(kept@) =~= k0.push((seq, sender@, now_ms)));
            }
            self.seen = kept;
            Some(NetworkEvent::Message(msg))
        }
    }
}

/// Whether `v` holds `x`.
pub(crate) fn slice_contains(v: &[u8], x: u8) -> (b: bool)
    ensures
        b == v@.contains(x),
{
    let mut i: usize = 0;
    while i < v.len()
        invariant
            0 <= i <= v@.len(),
            forall|a: int| 0 <= a < i ==> v@[a] != x,
        decreases v@.len() - i,
    {
        if v[i] == x {
            assert(v@[i as int] == x);
            return true;
        }
        i = i + 1;
    }
    false
}

} // verus!
