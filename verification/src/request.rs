//! What the hub sends to the cloud: its id, its watermark, and the events
//! that the cloud has not seen yet.

use crate::domain::{event_views, Event, EventView, Timestamp};
use crate::store::LocalStore;
use vstd::prelude::*;

verus! {

/// The number of seconds that an event must be old before it is sent, so
/// that an event still being written is left for the next round.
pub const MARGIN_SECONDS: i64 = 5;

/// The event is due: there is a watermark, the event is later than the
/// watermark, and it is earlier than `now` less the margin.
pub open spec fn due(e: EventView, watermark: Option<Timestamp>, now: Timestamp) -> bool {
    &&& watermark matches Some(w)
    &&& w.before(e.at)
    &&& Timestamp::shifted_back(now, MARGIN_SECONDS as int) matches Some(limit)
    &&& e.at.before(limit)
}

/// The events of `s` that are due, in the order of `s`.
pub open spec fn due_events(s: Seq<EventView>, watermark: Option<Timestamp>, now: Timestamp) -> Seq<
    EventView,
>
    decreases s.len(),
{
    if s.len() == 0 {
        Seq::empty()
    } else {
        let rest = due_events(s.drop_last(), watermark, now);
        if due(s.last(), watermark, now) {
            rest.push(s.last())
        } else {
            rest
        }
    }
}

/// `i` is where an event of the instant `at` goes into `s`: behind every
/// event that is not earlier, before the first that is.
pub open spec fn slot(s: Seq<EventView>, at: Timestamp, i: int) -> bool {
    &&& 0 <= i <= s.len()
    &&& forall|j: int| 0 <= j < i ==> !(#[trigger] s[j]).at.before(at)
    &&& i < s.len() ==> s[i].at.before(at)
}

/// The events of `s` from the newest to the oldest; events of one instant
/// keep the order they have in `s`.
pub open spec fn newest_first(s: Seq<EventView>) -> Seq<EventView>
    decreases s.len(),
{
    if s.len() == 0 {
        Seq::empty()
    } else {
        let rest = newest_first(s.drop_last());
        rest.insert(choose|i: int| slot(rest, s.last().at, i), s.last())
    }
}

/// An event is sent exactly when the log holds it and it is due.
pub proof fn law_due_events(
    s: Seq<EventView>,
    watermark: Option<Timestamp>,
    now: Timestamp,
    e: EventView,
)
    ensures
        due_events(s, watermark, now).contains(e) <==> s.contains(e) && due(e, watermark, now),
    decreases s.len(),
{
    if s.len() > 0 {
        let front = s.drop_last();
        law_due_events(front, watermark, now, e);
        let rest = due_events(front, watermark, now);
        let all = due_events(s, watermark, now);
        if s.contains(e) {
            let k = choose|k: int| 0 <= k < s.len() && s[k] == e;
            if k < front.len() {
                assert(front[k] == e);
            }
        }
        if front.contains(e) {
            let k = choose|k: int| 0 <= k < front.len() && front[k] == e;
            assert(s[k] == e);
        }
        if s.last() == e {
            assert(s[s.len() - 1] == e);
        }
        if rest.contains(e) {
            let k = choose|k: int| 0 <= k < rest.len() && rest[k] == e;
            assert(all[k] == e);
        }
        if all.contains(e) {
            let k = choose|k: int| 0 <= k < all.len() && all[k] == e;
            if k < rest.len() {
                assert(rest[k] == e);
            }
        }
        if due(s.last(), watermark, now) && s.last() == e {
            assert(all[rest.len() as int] == e);
        }
    }
}

proof fn lemma_slot_from(s: Seq<EventView>, at: Timestamp, k: int) -> (i: int)
    requires
        0 <= k <= s.len(),
        forall|j: int| 0 <= j < k ==> !(#[trigger] s[j]).at.before(at),
    ensures
        slot(s, at, i),
    decreases s.len() - k,
{
    if k == s.len() || s[k].at.before(at) {
        k
    } else {
        lemma_slot_from(s, at, k + 1)
    }
}

/// Sending order: `newest_first` keeps every event, each as often as it
/// occurs, and puts no event before a later one.
pub proof fn law_newest_first(s: Seq<EventView>)
    ensures
        newest_first(s).len() == s.len(),
        newest_first(s).to_multiset() == s.to_multiset(),
        forall|a: int, b: int|
            0 <= a < b < s.len() ==> !(#[trigger] newest_first(s)[a]).at.before(
                (#[trigger] newest_first(s)[b]).at,
            ),
    decreases s.len(),
{
    broadcast use vstd::seq_lib::group_to_multiset_ensures;

    if s.len() == 0 {
        assert(newest_first(s) =~= s);
    } else {
        let front = s.drop_last();
        let e = s.last();
        law_newest_first(front);
        let rest = newest_first(front);
        let found = lemma_slot_from(rest, e.at, 0);
        let i = choose|i: int| slot(rest, e.at, i);
        let out = newest_first(s);
        assert(out == rest.insert(i, e));
        assert forall|a: int, b: int| 0 <= a < b < out.len() implies !(#[trigger] out[a]).at.before(
            (#[trigger] out[b]).at,
        ) by {
            if a < i && b < i {
                assert(out[a] == rest[a] && out[b] == rest[b]);
            } else if a < i && b == i {
                assert(out[a] == rest[a]);
            } else if a < i {
                assert(out[a] == rest[a] && out[b] == rest[b - 1]);
            } else if a == i {
                assert(out[b] == rest[b - 1]);
                assert(rest[i].at.before(e.at));
                if i < b - 1 {
                    assert(!rest[i].at.before(rest[b - 1].at));
                }
            } else {
                assert(out[a] == rest[a - 1] && out[b] == rest[b - 1]);
            }
        }
        assert(out.remove(i) =~= rest);
        assert(out[i] == e);
        assert(out.to_multiset().count(e) > 0);
        assert(out.to_multiset() =~= rest.to_multiset().insert(e));
        assert(s =~= front.push(e));
        assert(s.to_multiset() =~= front.to_multiset().insert(e));
    }
}

/// Decides `due`.
pub fn is_due(e: &Event, watermark: &Option<Timestamp>, now: &Timestamp) -> (r: bool)
    ensures
        r == due(e@, *watermark, *now),
{
    match watermark {
        Some(w) => match now.minus_seconds(MARGIN_SECONDS) {
            Some(limit) => w.is_before(&e.at) && e.at.is_before(&limit),
            None => false,
        },
        None => false,
    }
}

/// A copy with the same view.
pub fn duplicate_event(e: &Event) -> (r: Event)
    ensures
        r@ == e@,
{
    Event {
        id: e.id,
        at: e.at,
        access: e.access,
        code: e.code.clone(),
        access_user_id: e.access_user_id,
        access_point_id: e.access_point_id,
    }
}

/// Puts `e` into `sorted` at its slot.
pub fn insert_by_instant(sorted: &mut Vec<Event>, e: Event)
    ensures
        event_views(final(sorted)@) == event_views(old(sorted)@).insert(
            choose|i: int| slot(event_views(old(sorted)@), e.at, i),
            e@,
        ),
{
    let ghost s = event_views(sorted@);
    let mut i: usize = 0;
    while i < sorted.len() && !sorted[i].at.is_before(&e.at)
        invariant
            i <= sorted.len(),
            s == event_views(sorted@),
            forall|j: int| 0 <= j < i ==> !(#[trigger] s[j]).at.before(e.at),
        decreases sorted.len() - i,
    {
        assert(s[i as int] == sorted@[i as int]@);
        i += 1;
    }
    proof {
        if i < sorted.len() {
            assert(s[i as int] == sorted@[i as int]@);
        }
        assert(slot(s, e.at, i as int));
        let k = choose|k: int| slot(s, e.at, k);
        assert(k == i) by {
            if k < i {
                assert(!s[k].at.before(e.at));
            } else if i < k {
                assert(s[i as int].at.before(e.at));
            }
        }
    }
    let ghost ev = e@;
    sorted.insert(i, e);
    assert(event_views(sorted@) =~= s.insert(i as int, ev));
}

/// The events that are due, from the newest to the oldest.
pub fn pending_events(events: &Vec<Event>, watermark: &Option<Timestamp>, now: &Timestamp) -> (out:
    Vec<Event>)
    ensures
        event_views(out@) == newest_first(due_events(event_views(events@), *watermark, *now)),
{
    let ghost s = event_views(events@);
    let mut out: Vec<Event> = Vec::new();
    let mut i: usize = 0;
    assert(event_views(out@) =~= newest_first(due_events(s.take(0), *watermark, *now)));
    while i < events.len()
        invariant
            i <= events.len(),
            s == event_views(events@),
            event_views(out@) == newest_first(due_events(s.take(i as int), *watermark, *now)),
        decreases events.len() - i,
    {
        assert(s.take(i + 1).drop_last() =~= s.take(i as int));
        assert(s.take(i + 1).last() == events@[i as int]@);
        if is_due(&events[i], watermark, now) {
            let ghost before = due_events(s.take(i as int), *watermark, *now);
            assert(before.push(events@[i as int]@).drop_last() =~= before);
            insert_by_instant(&mut out, duplicate_event(&events[i]));
        }
        i += 1;
    }
    assert(s.take(events.len() as int) =~= s);
    out
}

/// What the hub reports of itself.
#[derive(Debug)]
pub struct AccessHubRequestData {
    pub id: i64,
    pub cloud_last_access_event_at: Option<Timestamp>,
    pub access_events: Vec<Event>,
}

/// The body of one request to the cloud.
#[derive(Debug)]
pub struct RequestData {
    pub access_hub: AccessHubRequestData,
}

/// The request that the store gives rise to at the instant `now`.
pub fn request(store: &LocalStore, now: &Timestamp) -> (r: RequestData)
    ensures
        r.access_hub.id == store.hub.id,
        r.access_hub.cloud_last_access_event_at == store.hub.cloud_last_access_event_at,
        event_views(r.access_hub.access_events@) == newest_first(
            due_events(event_views(store.events@), store.hub.cloud_last_access_event_at, *now),
        ),
{
    RequestData {
        access_hub: AccessHubRequestData {
            id: store.hub.id,
            cloud_last_access_event_at: store.hub.cloud_last_access_event_at,
            access_events: pending_events(
                &store.events,
                &store.hub.cloud_last_access_event_at,
                now,
            ),
        },
    }
}

} // verus!
