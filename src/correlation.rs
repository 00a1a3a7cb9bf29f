//! Correlation of responses with the requests that wait for them.
//!
//! Each request is given the next identifier and a reply slot of the
//! caller's choosing (`S`); a response is routed to the slot registered under
//! its identifier, whatever the order in which responses arrive. Once the
//! transport has failed the table is closed: the slots still waiting are
//! handed back to be failed, and new requests are refused at once.
use vstd::prelude::*;

use crate::protocol::InboundMessage;
use std::collections::HashMap;

verus! {

broadcast use vstd::std_specs::hash::group_hash_axioms;

/// How a request can fail before it is sent.
#[derive(Debug, Clone, PartialEq, Eq)]
pub enum CallError {
    /// The transport has been torn down.
    TransportClosed,
    /// The next identifier still belongs to a request that awaits its reply;
    /// this takes the identifiers wrapping round while that request waits.
    IdentifierInUse,
}

/// What a response tells its caller: the `result` (absent means `null`), or
/// the `error` that the server sent.
#[derive(Debug, PartialEq, Eq)]
pub enum Outcome {
    Success(Option<serde_json::Value>),
    Failure(serde_json::Value),
}

pub open spec fn outcome_of(m: InboundMessage) -> Outcome {
    match m.error {
        Some(e) => Outcome::Failure(e),
        None => Outcome::Success(m.result),
    }
}

/// Mathematical form of [`PendingRequests`].
pub ghost struct PendingView<S> {
    pub next_id: u64,
    pub pending: Map<u64, S>,
    pub closed: bool,
}

pub open spec fn next_identifier(n: u64) -> u64 {
    if n == u64::MAX {
        0
    } else {
        (n + 1) as u64
    }
}

/// Registering a request: it takes the next identifier, unless the table is
/// closed or that identifier still waits.
pub open spec fn register_step<S>(st: PendingView<S>, slot: S) -> (PendingView<S>, Result<u64, CallError>) {
    if st.closed {
        (st, Err(CallError::TransportClosed))
    } else if st.pending.contains_key(st.next_id) {
        (st, Err(CallError::IdentifierInUse))
    } else {
        (
            PendingView {
                next_id: next_identifier(st.next_id),
                pending: st.pending.insert(st.next_id, slot),
                closed: false,
            },
            Ok(st.next_id),
        )
    }
}

/// Routing a response: the slot waiting under its identifier, if any, leaves
/// the table together with the outcome; other responses change nothing.
pub open spec fn dispatch_step<S>(st: PendingView<S>, m: InboundMessage) -> (PendingView<S>, Option<(S, Outcome)>) {
    match m.id {
        Some(id) => if st.pending.contains_key(id) {
            (
                PendingView { pending: st.pending.remove(id), ..st },
                Some((st.pending[id], outcome_of(m))),
            )
        } else {
            (st, None)
        },
        None => (st, None),
    }
}

/// Routing responses one after another; the deliveries in order.
pub open spec fn dispatch_all<S>(st: PendingView<S>, ms: Seq<InboundMessage>) -> (PendingView<S>, Seq<Option<(S, Outcome)>>)
    decreases ms.len(),
{
    if ms.len() == 0 {
        (st, Seq::empty())
    } else {
        let (st1, d) = dispatch_step(st, ms[0]);
        let (st2, ds) = dispatch_all(st1, ms.drop_first());
        (st2, seq![d] + ds)
    }
}

/// The requests that await a reply, by identifier.
pub struct PendingRequests<S> {
    next_id: u64,
    pending: HashMap<u64, S>,
    closed: bool,
}

impl<S> View for PendingRequests<S> {
    type V = PendingView<S>;

    closed spec fn view(&self) -> PendingView<S> {
        PendingView { next_id: self.next_id, pending: self.pending@, closed: self.closed }
    }
}

impl<S> PendingRequests<S> {
    /// An open table with nothing pending; identifiers start at 1.
    pub fn new() -> (t: Self)
        ensures
            t@ == (PendingView::<S> { next_id: 1, pending: Map::empty(), closed: false }),
    {
        PendingRequests { next_id: 1, pending: HashMap::new(), closed: false }
    }

    /// Registers the reply slot of a new request and returns its identifier.
    pub fn register(&mut self, slot: S) -> (r: Result<u64, CallError>)
        ensures
            (final(self)@, r) == register_step(old(self)@, slot),
    {
        if self.closed {
            return Err(CallError::TransportClosed);
        }
        let id = self.next_id;
        if self.pending.contains_key(&id) {
            return Err(CallError::IdentifierInUse);
        }
        self.pending.insert(id, slot);
        self.next_id = if id == u64::MAX {
            0
        } else {
            id + 1
        };
        Ok(id)
    }

    /// Routes a response to the slot that waits for it.
    pub fn dispatch(&mut self, message: InboundMessage) -> (r: Option<(S, Outcome)>)
        ensures
            (final(self)@, r) == dispatch_step(old(self)@, message),
    {
        let id = match message.id {
            Some(id) => id,
            None => {
                return None;
            },
        };
        match self.pending.remove(&id) {
            Some(slot) => {
                let outcome = match message.error {
                    Some(e) => Outcome::Failure(e),
                    None => Outcome::Success(message.result),
                };
                Some((slot, outcome))
            },
            None => {
                assert(old(self)@.pending.remove(id) =~= old(self)@.pending);
                None
            },
        }
    }

    /// Withdraws a request that could not be sent: no reply will come for it.
    pub fn withdraw(&mut self, id: u64) -> (r: Option<S>)
        ensures
            final(self)@ == (PendingView { pending: old(self)@.pending.remove(id), ..old(self)@ }),
            r matches Some(s) ==> old(self)@.pending.contains_key(id) && s == old(self)@.pending[id],
            r is None ==> !old(self)@.pending.contains_key(id),
    {
        self.pending.remove(&id)
    }

    /// Tears the table down after a transport failure: hands back every slot
    /// still waiting, so that each can be failed, and refuses new requests.
    pub fn close(&mut self) -> (r: HashMap<u64, S>)
        ensures
            r@ == old(self)@.pending,
            final(self)@ == (PendingView::<S> {
                next_id: old(self)@.next_id,
                pending: Map::empty(),
                closed: true,
            }),
    {
        self.closed = true;
        let mut waiting: HashMap<u64, S> = HashMap::new();
        std::mem::swap(&mut waiting, &mut self.pending);
        waiting
    }

    /// Whether the table has been closed.
    pub fn is_closed(&self) -> (r: bool)
        ensures
            r == self@.closed,
    {
        self.closed
    }
}

/// Once the transport has been torn down, a new request fails at once with a
/// transport error and leaves the table as it was.
pub proof fn lemma_closed_refuses_requests<S>(st: PendingView<S>, slot: S)
    requires
        st.closed,
    ensures
        register_step(st, slot) == (st, Err::<u64, CallError>(CallError::TransportClosed)),
{
}

/// A registered request is the only one with its identifier, and its slot is
/// the one that waits under it.
pub proof fn lemma_register_binds_fresh_identifier<S>(st: PendingView<S>, slot: S)
    requires
        !st.closed,
        !st.pending.contains_key(st.next_id),
    ensures
        ({
            let (st1, r) = register_step(st, slot);
            &&& r == Ok::<u64, CallError>(st.next_id)
            &&& st1.pending[st.next_id] == slot
            &&& forall|id: u64| id != st.next_id ==> (#[trigger] st1.pending.contains_key(id)
                <==> st.pending.contains_key(id))
        }),
{
}

/// Responses with distinct identifiers, each awaited, reach the slots
/// registered under their identifiers, whatever the order in which they
/// arrive: the delivery for each one depends on the table and that response
/// alone.
pub proof fn lemma_responses_reach_their_callers<S>(st: PendingView<S>, ms: Seq<InboundMessage>)
    requires
        forall|k: int| 0 <= k < ms.len() ==> (#[trigger] ms[k]).id is Some && st.pending.contains_key(ms[k].id->0),
        forall|k: int, l: int| 0 <= k < l < ms.len() ==> (#[trigger] ms[k]).id != (#[trigger] ms[l]).id,
    ensures
        dispatch_all(st, ms).1.len() == ms.len(),
        forall|k: int| 0 <= k < ms.len() ==> #[trigger] dispatch_all(st, ms).1[k] == Some(
            (st.pending[ms[k].id->0], outcome_of(ms[k])),
        ),
    decreases ms.len(),
{
    if ms.len() > 0 {
        let (st1, d) = dispatch_step(st, ms[0]);
        let rest = ms.drop_first();
        assert forall|k: int| 0 <= k < rest.len() implies (#[trigger] rest[k]).id is Some && st1.pending.contains_key(rest[k].id->0) by {
            assert(rest[k] == ms[k + 1]);
            assert(ms[0].id != ms[k + 1].id);
        }
        assert forall|k: int, l: int| 0 <= k < l < rest.len() implies (#[trigger] rest[k]).id != (#[trigger] rest[l]).id by {
            assert(rest[k] == ms[k + 1]);
            assert(rest[l] == ms[l + 1]);
        }
        lemma_responses_reach_their_callers(st1, rest);
        assert forall|k: int| 0 <= k < ms.len() implies #[trigger] dispatch_all(st, ms).1[k] == Some(
            (st.pending[ms[k].id->0], outcome_of(ms[k])),
        ) by {
            if k > 0 {
                assert(rest[k - 1] == ms[k]);
                assert(ms[0].id != ms[k].id);
                assert(st1.pending[ms[k].id->0] == st.pending[ms[k].id->0]);
            }
        }
    }
}

/// Registering requests one after another; the results in order.
pub open spec fn register_all<S>(st: PendingView<S>, slots: Seq<S>) -> (PendingView<S>, Seq<Result<u64, CallError>>)
    decreases slots.len(),
{
    if slots.len() == 0 {
        (st, Seq::empty())
    } else {
        let (st1, rs) = register_all(st, slots.drop_last());
        let (st2, r) = register_step(st1, slots.last());
        (st2, rs.push(r))
    }
}

proof fn lemma_register_all<S>(st: PendingView<S>, slots: Seq<S>)
    requires
        !st.closed,
        st.pending == Map::<u64, S>::empty(),
        st.next_id + slots.len() <= u64::MAX,
    ensures
        ({
            let (st1, rs) = register_all(st, slots);
            &&& !st1.closed
            &&& st1.next_id == st.next_id + slots.len()
            &&& rs.len() == slots.len()
            &&& forall|k: int| 0 <= k < slots.len() ==> #[trigger] rs[k] == Ok::<u64, CallError>((st.next_id + k) as u64)
            &&& forall|id: u64| #[trigger] st1.pending.contains_key(id) <==> st.next_id <= id < st.next_id + slots.len()
            &&& forall|k: int| 0 <= k < slots.len() ==> st1.pending[(st.next_id + k) as u64] == #[trigger] slots[k]
        }),
    decreases slots.len(),
{
    if slots.len() > 0 {
        let init = slots.drop_last();
        lemma_register_all(st, init);
        let (st1, rs) = register_all(st, init);
        let n = slots.len() - 1;
        assert forall|k: int| 0 <= k < n implies #[trigger] slots[k] == init[k] by {}
    }
}

/// Calls made one after another on a fresh table each get the next
/// identifier; when their responses then arrive, in any order, each response
/// reaches the slot of the call that carries its identifier.
pub proof fn lemma_calls_get_their_own_replies<S>(st: PendingView<S>, slots: Seq<S>, ms: Seq<InboundMessage>)
    requires
        !st.closed,
        st.pending == Map::<u64, S>::empty(),
        st.next_id + slots.len() <= u64::MAX,
        forall|p: int|
            0 <= p < ms.len() ==> (#[trigger] ms[p]).id is Some && st.next_id <= ms[p].id->0 < st.next_id
                + slots.len(),
        forall|p: int, q: int| 0 <= p < q < ms.len() ==> (#[trigger] ms[p]).id != (#[trigger] ms[q]).id,
    ensures
        ({
            let (st1, rs) = register_all(st, slots);
            &&& forall|k: int| 0 <= k < slots.len() ==> #[trigger] rs[k] == Ok::<u64, CallError>((st.next_id + k) as u64)
            &&& dispatch_all(st1, ms).1.len() == ms.len()
            &&& forall|p: int|
                0 <= p < ms.len() ==> #[trigger] dispatch_all(st1, ms).1[p] == Some(
                    (slots[ms[p].id->0 - st.next_id], outcome_of(ms[p])),
                )
        }),
{
    lemma_register_all(st, slots);
    let (st1, rs) = register_all(st, slots);
    assert forall|p: int| 0 <= p < ms.len() implies (#[trigger] ms[p]).id is Some && st1.pending.contains_key(ms[p].id->0) by {}
    lemma_responses_reach_their_callers(st1, ms);
    assert forall|p: int| 0 <= p < ms.len() implies #[trigger] dispatch_all(st1, ms).1[p] == Some(
        (slots[ms[p].id->0 - st.next_id], outcome_of(ms[p])),
    ) by {
        let k = ms[p].id->0 - st.next_id;
        assert(st1.pending[(st.next_id + k) as u64] == slots[k]);
    }
}

} // verus!
