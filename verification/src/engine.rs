use crate::collision::ColliderKey;
use crate::events::{TriggerEvent, TriggerKind};
use crate::id::Id;
use vstd::prelude::*;

verus! {

/// The number of rounds in which the engine delivers queued events and
/// messages before it moves on with the frame.
pub const MAX_FLUSH_ROUNDS: u32 = 10;

/// The trigger events that one contact between colliders `a` and `b`
/// gives rise to, each with the object it is sent to. Each collider that is
/// a sensor produces one event naming the other collider's owner, sent
/// first to the sensor's owner and then to the other owner.
pub open spec fn contact_events(
    a: ColliderKey,
    a_is_sensor: bool,
    b: ColliderKey,
    b_is_sensor: bool,
    kind: TriggerKind,
) -> Seq<(Id, TriggerEvent)> {
    let from_a = TriggerEvent { owner: b.id, sensor: a, kind: kind };
    let from_b = TriggerEvent { owner: a.id, sensor: b, kind: kind };
    (if a_is_sensor {
        seq![(a.id, from_a), (b.id, from_a)]
    } else {
        Seq::empty()
    }) + (if b_is_sensor {
        seq![(b.id, from_b), (a.id, from_b)]
    } else {
        Seq::empty()
    })
}

/// The trigger events of a list of contacts, contact by contact in order;
/// each contact names its two colliders, each with whether it is a sensor.
pub open spec fn contacts_events(
    contacts: Seq<((ColliderKey, bool), (ColliderKey, bool))>,
    kind: TriggerKind,
) -> Seq<(Id, TriggerEvent)>
    decreases contacts.len(),
{
    if contacts.len() == 0 {
        Seq::empty()
    } else {
        let ((a, a_is_sensor), (b, b_is_sensor)) = contacts.last();
        contacts_events(contacts.drop_last(), kind) + contact_events(
            a,
            a_is_sensor,
            b,
            b_is_sensor,
            kind,
        )
    }
}

/// Turns the contacts that began (`Enter`) or ended (`Exit`) in this
/// physics step into targeted trigger events; each contact names its two
/// colliders, each with whether it is a sensor.
pub fn trigger_events(
    contacts: &Vec<((ColliderKey, bool), (ColliderKey, bool))>,
    kind: TriggerKind,
) -> (out: Vec<(Id, TriggerEvent)>)
    ensures
        out@ == contacts_events(contacts@, kind),
{
    let mut out: Vec<(Id, TriggerEvent)> = Vec::new();
    let n = contacts.len();
    let mut i: usize = 0;
    while i < n
        invariant
            n == contacts.len(),
            i <= n,
            out@ == contacts_events(contacts@.take(i as int), kind),
        decreases n - i,
    {
        let ((a, a_is_sensor), (b, b_is_sensor)) = contacts[i];
        if a_is_sensor {
            let ev = TriggerEvent { owner: b.id, sensor: a, kind: kind };
            out.push((a.id, ev));
            out.push((b.id, ev));
        }
        if b_is_sensor {
            let ev = TriggerEvent { owner: a.id, sensor: b, kind: kind };
            out.push((b.id, ev));
            out.push((a.id, ev));
        }
        proof {
            assert(contacts@.take(i + 1).drop_last() =~= contacts@.take(i as int));
        }
        i = i + 1;
    }
    proof {
        assert(contacts@.take(n as int) =~= contacts@);
    }
    out
}

/// The number of sensor colliders over a list of contacts (a collider
/// counts once for each contact it takes part in).
pub open spec fn sensor_count(contacts: Seq<((ColliderKey, bool), (ColliderKey, bool))>) -> nat
    decreases contacts.len(),
{
    if contacts.len() == 0 {
        0
    } else {
        let last = contacts.last();
        sensor_count(contacts.drop_last()) + (if last.0.1 {
            1nat
        } else {
            0nat
        }) + (if last.1.1 {
            1nat
        } else {
            0nat
        })
    }
}

/// Each sensor taking part in a contact gives exactly two trigger events.
pub proof fn lemma_trigger_event_count(
    contacts: Seq<((ColliderKey, bool), (ColliderKey, bool))>,
    kind: TriggerKind,
)
    ensures
        contacts_events(contacts, kind).len() == 2 * sensor_count(contacts),
    decreases contacts.len(),
{
    if contacts.len() > 0 {
        lemma_trigger_event_count(contacts.drop_last(), kind);
    }
}

/// Every trigger event is sent either to the owner of the sensor it names
/// or to the owner of the other collider, and carries the kind of the step.
pub proof fn lemma_trigger_event_targets(
    contacts: Seq<((ColliderKey, bool), (ColliderKey, bool))>,
    kind: TriggerKind,
    j: int,
)
    requires
        0 <= j < contacts_events(contacts, kind).len(),
    ensures
        ({
            let (target, ev) = contacts_events(contacts, kind)[j];
            &&& target == ev.sensor.id || target == ev.owner
            &&& ev.kind == kind
        }),
    decreases contacts.len(),
{
    let all = contacts_events(contacts, kind);
    if contacts.len() > 0 {
        let prev = contacts_events(contacts.drop_last(), kind);
        if j < prev.len() {
            lemma_trigger_event_targets(contacts.drop_last(), kind, j);
            assert(all[j] == prev[j]);
        }
    }
}

/// A sensor collider in a contact notifies both its own owner and the owner
/// of the other collider, with an event naming the sensor and that other
/// owner.
pub proof fn lemma_sensor_notifies_both(
    contacts: Seq<((ColliderKey, bool), (ColliderKey, bool))>,
    kind: TriggerKind,
    i: int,
)
    requires
        0 <= i < contacts.len(),
    ensures
        ({
            let all = contacts_events(contacts, kind);
            let ((a, a_is_sensor), (b, b_is_sensor)) = contacts[i];
            let from_a = TriggerEvent { owner: b.id, sensor: a, kind: kind };
            let from_b = TriggerEvent { owner: a.id, sensor: b, kind: kind };
            &&& a_is_sensor ==> all.contains((a.id, from_a)) && all.contains((b.id, from_a))
            &&& b_is_sensor ==> all.contains((b.id, from_b)) && all.contains((a.id, from_b))
        }),
    decreases contacts.len(),
{
    let all = contacts_events(contacts, kind);
    let last = contacts.len() - 1;
    let prev = contacts_events(contacts.drop_last(), kind);
    let ((a, a_is_sensor), (b, b_is_sensor)) = contacts[i];
    let from_a = TriggerEvent { owner: b.id, sensor: a, kind: kind };
    let from_b = TriggerEvent { owner: a.id, sensor: b, kind: kind };
    if i < last {
        lemma_sensor_notifies_both(contacts.drop_last(), kind, i);
        assert(contacts.drop_last()[i] == contacts[i]);
        assert forall|e: (Id, TriggerEvent)| prev.contains(e) implies all.contains(e) by {
            let k = choose|k: int| 0 <= k < prev.len() && prev[k] == e;
            assert(all[k] == e);
        }
    } else {
        let tail = contact_events(a, a_is_sensor, b, b_is_sensor, kind);
        assert(all == prev + tail);
        let first = if a_is_sensor {
            seq![(a.id, from_a), (b.id, from_a)]
        } else {
            Seq::empty()
        };
        if a_is_sensor {
            assert(tail[0] == (a.id, from_a));
            assert(tail[1] == (b.id, from_a));
            assert(all[prev.len() as int] == (a.id, from_a));
            assert(all[prev.len() as int + 1] == (b.id, from_a));
        }
        if b_is_sensor {
            assert(tail[first.len() as int] == (b.id, from_b));
            assert(tail[first.len() as int + 1] == (a.id, from_b));
            assert(all[prev.len() as int + first.len() as int] == (b.id, from_b));
            assert(all[prev.len() as int + first.len() as int + 1] == (a.id, from_b));
        }
    }
}

/// Where the engine stands in delivering queued events and messages: the
/// current round, and whether this round has delivered anything yet.
#[derive(Debug, Clone, Copy, PartialEq, Eq, Structural)]
pub struct FlushState {
    pub round: u32,
    pub processed: bool,
}

/// What the engine does next while delivering events and messages.
#[derive(Debug, Clone, Copy, PartialEq, Eq, Structural)]
pub enum FlushAction {
    /// Take the newest queued event and hand it to the active scene.
    DispatchEvent,
    /// Hand the pending messages to the active scene; the round ends.
    DispatchMessages,
    /// The round ends with nothing more to deliver; start the next one.
    NextRound,
    /// Stop delivering for this frame.
    Finish,
}

/// One decision of the delivery loop, given whether an event is queued and
/// whether messages are pending. Events are drained first; then pending
/// messages are delivered; a round that delivered nothing, or the end of
/// the last round, stops the loop.
pub open spec fn flush_transition(st: FlushState, has_event: bool, has_mail: bool) -> (
    FlushState,
    FlushAction,
) {
    if st.round >= MAX_FLUSH_ROUNDS {
        (st, FlushAction::Finish)
    } else if has_event {
        (FlushState { round: st.round, processed: true }, FlushAction::DispatchEvent)
    } else if has_mail {
        (FlushState { round: (st.round + 1) as u32, processed: false }, FlushAction::DispatchMessages)
    } else if st.processed {
        (FlushState { round: (st.round + 1) as u32, processed: false }, FlushAction::NextRound)
    } else {
        (st, FlushAction::Finish)
    }
}

impl FlushState {
    /// The state before the first round.
    pub fn start() -> (r: Self)
        ensures
            r.round == 0,
            !r.processed,
    {
        FlushState { round: 0, processed: false }
    }
}

/// Decides the next step of delivering queued events and messages.
pub fn flush_step(st: FlushState, has_event: bool, has_mail: bool) -> (r: (FlushState, FlushAction))
    ensures
        r == flush_transition(st, has_event, has_mail),
        st.round <= r.0.round,
        st.round <= MAX_FLUSH_ROUNDS ==> r.0.round <= MAX_FLUSH_ROUNDS,
        r.1 != FlushAction::DispatchEvent && r.1 != FlushAction::Finish ==> r.0.round == st.round + 1,
        st.round < MAX_FLUSH_ROUNDS && has_event ==> r == (
            FlushState { round: st.round, processed: true },
            FlushAction::DispatchEvent,
        ),
        st.round < MAX_FLUSH_ROUNDS && !has_event && has_mail ==> r == (
            FlushState { round: (st.round + 1) as u32, processed: false },
            FlushAction::DispatchMessages,
        ),
{
    if st.round >= MAX_FLUSH_ROUNDS {
        (st, FlushAction::Finish)
    } else if has_event {
        (FlushState { round: st.round, processed: true }, FlushAction::DispatchEvent)
    } else if has_mail {
        (FlushState { round: st.round + 1, processed: false }, FlushAction::DispatchMessages)
    } else if st.processed {
        (FlushState { round: st.round + 1, processed: false }, FlushAction::NextRound)
    } else {
        (st, FlushAction::Finish)
    }
}

/// The actions the delivery loop takes from `st` when it observes, step by
/// step, the (event queued, messages pending) pairs of `obs`; it stops
/// after `Finish`.
pub open spec fn flush_actions(st: FlushState, obs: Seq<(bool, bool)>) -> Seq<FlushAction>
    decreases obs.len(),
{
    if obs.len() == 0 {
        Seq::empty()
    } else {
        let (next, act) = flush_transition(st, obs[0].0, obs[0].1);
        if act == FlushAction::Finish {
            seq![act]
        } else {
            seq![act] + flush_actions(next, obs.drop_first())
        }
    }
}

/// The number of actions that end a round.
pub open spec fn round_ends(acts: Seq<FlushAction>) -> nat
    decreases acts.len(),
{
    if acts.len() == 0 {
        0
    } else {
        round_ends(acts.drop_first()) + (if acts[0] == FlushAction::DispatchMessages
            || acts[0] == FlushAction::NextRound {
            1nat
        } else {
            0nat
        })
    }
}

/// However events and messages keep arriving, one frame's delivery loop
/// ends at most `MAX_FLUSH_ROUNDS` rounds (so it hands messages to the scene
/// at most that often), and nothing follows a `Finish`.
pub proof fn lemma_flush_rounds_bounded(st: FlushState, obs: Seq<(bool, bool)>)
    requires
        st.round <= MAX_FLUSH_ROUNDS,
    ensures
        round_ends(flush_actions(st, obs)) <= MAX_FLUSH_ROUNDS - st.round,
        forall|i: int|
            0 <= i < flush_actions(st, obs).len() - 1 ==> flush_actions(st, obs)[i]
                != FlushAction::Finish,
    decreases obs.len(),
{
    if obs.len() > 0 {
        let (next, act) = flush_transition(st, obs[0].0, obs[0].1);
        let rest = flush_actions(next, obs.drop_first());
        if act != FlushAction::Finish {
            lemma_flush_rounds_bounded(next, obs.drop_first());
            let all = seq![act] + rest;
            assert(all.drop_first() =~= rest);
            assert(all[0] == act);
            assert(round_ends(all) == round_ends(rest) + (if act == FlushAction::DispatchMessages
                || act == FlushAction::NextRound {
                1nat
            } else {
                0nat
            }));
            assert forall|i: int| 0 <= i < all.len() - 1 implies all[i] != FlushAction::Finish by {
                if i > 0 {
                    assert(all[i] == rest[i - 1]);
                }
            }
        } else {
            assert(seq![act].drop_first() =~= Seq::<FlushAction>::empty());
            assert(round_ends(seq![act].drop_first()) == 0);
        }
    }
}

/// Within a round, queued events come first and use up no round: while
/// the round limit is not reached, an available event is always delivered
/// next, whether messages are pending or not and whatever was delivered
/// before, and the round stays the same.
pub proof fn lemma_events_first(st: FlushState, has_mail: bool)
    requires
        st.round < MAX_FLUSH_ROUNDS,
    ensures
        flush_transition(st, true, has_mail).1 == FlushAction::DispatchEvent,
        flush_transition(st, true, has_mail).0.round == st.round,
        flush_transition(st, true, has_mail).0.processed,
{
}

/// A burst of queued events is delivered whole in the current round: if
/// an event is available at each of the observed steps, every one of
/// those steps delivers an event, with no round ended and no messages
/// handed over in between.
pub proof fn lemma_event_burst(st: FlushState, obs: Seq<(bool, bool)>)
    requires
        st.round < MAX_FLUSH_ROUNDS,
        forall|i: int| 0 <= i < obs.len() ==> #[trigger] obs[i].0,
    ensures
        flush_actions(st, obs) == Seq::new(obs.len(), |i: int| FlushAction::DispatchEvent),
    decreases obs.len(),
{
    if obs.len() > 0 {
        let (next, act) = flush_transition(st, obs[0].0, obs[0].1);
        assert(obs[0].0);
        lemma_events_first(st, obs[0].1);
        let rest = obs.drop_first();
        assert forall|i: int| 0 <= i < rest.len() implies #[trigger] rest[i].0 by {
            assert(rest[i] == obs[i + 1]);
        }
        lemma_event_burst(next, rest);
        assert(flush_actions(st, obs) =~= Seq::new(obs.len(), |i: int| FlushAction::DispatchEvent));
    }
}

/// With no event queued, pending messages end the round: they are handed
/// over and the next round begins with nothing delivered yet.
pub proof fn lemma_messages_end_round(st: FlushState)
    requires
        st.round < MAX_FLUSH_ROUNDS,
    ensures
        flush_transition(st, false, true) == (
            FlushState { round: (st.round + 1) as u32, processed: false },
            FlushAction::DispatchMessages,
        ),
{
}

/// A prefix of a list of contacts has no more sensors than the whole list.
pub proof fn lemma_sensor_count_prefix(
    contacts: Seq<((ColliderKey, bool), (ColliderKey, bool))>,
    j: int,
)
    requires
        0 <= j <= contacts.len(),
    ensures
        sensor_count(contacts.take(j)) <= sensor_count(contacts),
    decreases contacts.len(),
{
    if j == contacts.len() {
        assert(contacts.take(j) =~= contacts);
    } else {
        assert(contacts.drop_last().take(j) =~= contacts.take(j));
        lemma_sensor_count_prefix(contacts.drop_last(), j);
    }
}

/// Where each contact's events stand: the events of contact `i` start right
/// after two events for every sensor in the earlier contacts. If its first
/// collider `a` is a sensor, its event goes first to `a`'s owner and then
/// to `b`'s owner; after those, if `b` is a sensor, its event goes first
/// to `b`'s owner and then to `a`'s owner.
pub proof fn lemma_contact_event_positions(
    contacts: Seq<((ColliderKey, bool), (ColliderKey, bool))>,
    kind: TriggerKind,
    i: int,
)
    requires
        0 <= i < contacts.len(),
    ensures
        ({
            let all = contacts_events(contacts, kind);
            let ((a, a_is_sensor), (b, b_is_sensor)) = contacts[i];
            let from_a = TriggerEvent { owner: b.id, sensor: a, kind: kind };
            let from_b = TriggerEvent { owner: a.id, sensor: b, kind: kind };
            let p: int = 2 * (sensor_count(contacts.take(i)) as int);
            let q = p + (if a_is_sensor {
                2int
            } else {
                0int
            });
            &&& 2 * sensor_count(contacts.take(i + 1)) == q + (if b_is_sensor {
                2int
            } else {
                0int
            })
            &&& 2 * sensor_count(contacts.take(i + 1)) <= all.len()
            &&& a_is_sensor ==> all[p] == (a.id, from_a) && all[p + 1] == (b.id, from_a)
            &&& b_is_sensor ==> all[q] == (b.id, from_b) && all[q + 1] == (a.id, from_b)
        }),
    decreases contacts.len(),
{
    let all = contacts_events(contacts, kind);
    let rest = contacts.drop_last();
    let prev = contacts_events(rest, kind);
    let ((a, a_is_sensor), (b, b_is_sensor)) = contacts[i];
    let from_a = TriggerEvent { owner: b.id, sensor: a, kind: kind };
    let from_b = TriggerEvent { owner: a.id, sensor: b, kind: kind };
    assert(contacts.take(i + 1).drop_last() =~= contacts.take(i));
    assert(contacts.take(i + 1).last() == contacts[i]);
    lemma_trigger_event_count(contacts, kind);
    lemma_trigger_event_count(rest, kind);
    lemma_sensor_count_prefix(contacts, i + 1);
    if i < contacts.len() - 1 {
        lemma_contact_event_positions(rest, kind, i);
        assert(rest.take(i) =~= contacts.take(i));
        assert(rest.take(i + 1) =~= contacts.take(i + 1));
        assert(rest[i] == contacts[i]);
        lemma_sensor_count_prefix(rest, i + 1);
        assert forall|k: int| 0 <= k < prev.len() implies all[k] == prev[k] by {}
    } else {
        assert(contacts.take(i) =~= rest);
        let tail = contact_events(a, a_is_sensor, b, b_is_sensor, kind);
        assert(all == prev + tail);
        let first: Seq<(Id, TriggerEvent)> = if a_is_sensor {
            seq![(a.id, from_a), (b.id, from_a)]
        } else {
            Seq::empty()
        };
        if a_is_sensor {
            assert(tail[0] == (a.id, from_a));
            assert(tail[1] == (b.id, from_a));
        }
        if b_is_sensor {
            assert(tail[first.len() as int] == (b.id, from_b));
            assert(tail[first.len() as int + 1] == (a.id, from_b));
        }
    }
}

} // verus!
