use std::collections::VecDeque;
use vstd::prelude::*;

verus! {

// ---------------------------------------------------------------------------
// sequencer
// ---------------------------------------------------------------------------

/// One scheduled playback of a sequenced net: which net, how many samples
/// until it starts, and how many samples it still plays.
#[derive(Clone, Copy, PartialEq, Eq, Structural, Debug)]
pub struct Event {
    pub index: usize,
    pub delay: usize,
    pub duration: usize,
}

/// The events of `events` that belong to another net than `index`, in order.
pub open spec fn other_events(events: Seq<Event>, index: usize) -> Seq<Event>
    decreases events.len(),
{
    if events.len() == 0 {
        Seq::empty()
    } else {
        let rest = other_events(events.drop_last(), index);
        if events.last().index != index {
            rest.push(events.last())
        } else {
            rest
        }
    }
}

/// An event one sample later: once its delay is over it plays and has one
/// sample less to play, before that its start comes one sample closer.
pub open spec fn advance(e: Event) -> Event {
    if e.delay == 0 {
        Event { index: e.index, delay: 0, duration: (e.duration - 1) as usize }
    } else {
        Event { index: e.index, delay: (e.delay - 1) as usize, duration: e.duration }
    }
}

/// The events after one sample: finished events (no duration left) are
/// dropped, the others advance.
pub open spec fn after_step(events: Seq<Event>) -> Seq<Event>
    decreases events.len(),
{
    if events.len() == 0 {
        Seq::empty()
    } else {
        let rest = after_step(events.drop_last());
        let e = events.last();
        if e.duration != 0 {
            rest.push(advance(e))
        } else {
            rest
        }
    }
}

/// The nets that play during one sample: those of the unfinished events whose
/// delay is over, in the order of the events.
pub open spec fn playing(events: Seq<Event>) -> Seq<usize>
    decreases events.len(),
{
    if events.len() == 0 {
        Seq::empty()
    } else {
        let rest = playing(events.drop_last());
        let e = events.last();
        if e.duration != 0 && e.delay == 0 {
            rest.push(e.index)
        } else {
            rest
        }
    }
}

/// No two events belong to the same net.
pub open spec fn distinct_nets(events: Seq<Event>) -> bool {
    forall|i: int, j: int|
        0 <= i < j < events.len() ==> #[trigger] events[i].index != #[trigger] events[j].index
}

/// The event schedule of a sequencer of nets. A trigger schedules a net
/// (after a delay, for a duration, both in samples) and replaces any earlier
/// schedule of that net; each sample the nets whose delay is over play.
#[derive(Clone, Debug)]
pub struct Sequencer {
    pub events: Vec<Event>,
}

impl Sequencer {
    /// A sequencer with nothing scheduled.
    pub fn new() -> (s: Self)
        ensures
            s.events@ == Seq::<Event>::empty(),
    {
        Sequencer { events: Vec::new() }
    }

    /// Schedules net `index` to start after `delay` samples and play for
    /// `duration` samples; an earlier schedule of the same net is dropped.
    pub fn trigger(&mut self, index: usize, delay: usize, duration: usize)
        ensures
            final(self).events@ == other_events(old(self).events@, index).push(
                Event { index, delay, duration },
            ),
    {
        let mut kept: Vec<Event> = Vec::new();
        let mut i: usize = 0;
        while i < self.events.len()
            invariant
                i <= self.events.len(),
                kept@ == other_events(self.events@.take(i as int), index),
            decreases self.events.len() - i,
        {
            let e = self.events[i];
            proof {
                assert(self.events@.take(i + 1).drop_last() =~= self.events@.take(i as int));
            }
            if e.index != index {
                kept.push(e);
            }
            i += 1;
        }
        proof {
            assert(self.events@.take(i as int) =~= self.events@);
        }
        kept.push(Event { index, delay, duration });
        self.events = kept;
    }

    /// Moves the schedule one sample on and returns the nets that play during
    /// that sample.
    pub fn step(&mut self) -> (played: Vec<usize>)
        ensures
            final(self).events@ == after_step(old(self).events@),
            played@ == playing(old(self).events@),
    {
        let mut next: Vec<Event> = Vec::new();
        let mut played: Vec<usize> = Vec::new();
        let mut i: usize = 0;
        while i < self.events.len()
            invariant
                i <= self.events.len(),
                next@ == after_step(self.events@.take(i as int)),
                played@ == playing(self.events@.take(i as int)),
            decreases self.events.len() - i,
        {
            let e = self.events[i];
            proof {
                assert(self.events@.take(i + 1).drop_last() =~= self.events@.take(i as int));
            }
            if e.duration != 0 {
                if e.delay == 0 {
                    played.push(e.index);
                    next.push(Event { index: e.index, delay: 0, duration: e.duration - 1 });
                } else {
                    next.push(Event { index: e.index, delay: e.delay - 1, duration: e.duration });
                }
            }
            i += 1;
        }
        proof {
            assert(self.events@.take(i as int) =~= self.events@);
        }
        self.events = next;
        played
    }

    /// One sample of the sequencer: a trigger (net, delay, duration, in
    /// samples) schedules its net first; then the schedule moves one sample
    /// on, and the nets that play during that sample are returned.
    pub fn tick(&mut self, trigger: Option<(usize, usize, usize)>) -> (played: Vec<usize>)
        ensures
            final(self).events@ == after_step(scheduled(old(self).events@, trigger)),
            played@ == playing(scheduled(old(self).events@, trigger)),
    {
        match trigger {
            Some((index, delay, duration)) => self.trigger(index, delay, duration),
            None => {},
        }
        self.step()
    }
}

/// The schedule once a trigger, if there is one, is taken in.
pub open spec fn scheduled(events: Seq<Event>, trigger: Option<(usize, usize, usize)>) -> Seq<Event> {
    match trigger {
        Some((index, delay, duration)) => other_events(events, index).push(
            Event { index, delay, duration },
        ),
        None => events,
    }
}

/// After a sample with a trigger of positive duration, the schedule holds
/// exactly one event for the triggered net, the new one moved one sample on
/// (one sample closer to its start, or one sample less to play once it has
/// started), and still holds at most one event per net.
pub proof fn lemma_tick_one_event(events: Seq<Event>, index: usize, delay: usize, duration: usize)
    requires
        distinct_nets(events),
        duration > 0,
    ensures
        ({
            let s = after_step(scheduled(events, Some((index, delay, duration))));
            &&& distinct_nets(s)
            &&& s.len() > 0
            &&& s.last() == advance(Event { index, delay, duration })
            &&& forall|k: int| 0 <= k < s.len() - 1 ==> #[trigger] s[k].index != index
        }),
{
    let e = Event { index, delay, duration };
    let r = other_events(events, index);
    let s0 = r.push(e);
    lemma_trigger_single_event(events, index, delay, duration);
    assert(s0.drop_last() =~= r);
    assert(after_step(s0) == after_step(r).push(advance(e)));
    lemma_step_keeps_distinct(s0);
    let s = after_step(s0);
    assert forall|k: int| 0 <= k < s.len() - 1 implies #[trigger] s[k].index != index by {
        assert(s[k] == after_step(r)[k]);
        lemma_step_keeps_distinct(s0);
        let j = choose|j: int|
            0 <= j < s0.len() && s0[j].duration != 0 && #[trigger] s0[j].index == s[k].index
                && s[k].delay + s[k].duration + 1 == s0[j].delay + s0[j].duration;
        if j == s0.len() - 1 {
            assert(s[s.len() - 1].index == index);
            assert(distinct_nets(s));
        }
    }
}

proof fn lemma_other_events_from(events: Seq<Event>, index: usize)
    ensures
        forall|k: int|
            0 <= k < other_events(events, index).len() ==> {
                &&& other_events(events, index)[k].index != index
                &&& exists|j: int|
                    0 <= j < events.len() && #[trigger] events[j] == other_events(events, index)[k]
            },
    decreases events.len(),
{
    if events.len() > 0 {
        let p = events.drop_last();
        lemma_other_events_from(p, index);
        assert forall|k: int|
            #![trigger other_events(events, index)[k]]
            0 <= k < other_events(events, index).len() implies exists|j: int|
            0 <= j < events.len() && #[trigger] events[j] == other_events(events, index)[k] by {
            if k < other_events(p, index).len() {
                let j = choose|j: int| 0 <= j < p.len() && #[trigger] p[j] == other_events(p, index)[k];
                assert(events[j] == p[j]);
            } else {
                assert(events[events.len() - 1] == other_events(events, index)[k]);
            }
        }
    }
}

proof fn lemma_other_events_distinct(events: Seq<Event>, index: usize)
    requires
        distinct_nets(events),
    ensures
        distinct_nets(other_events(events, index)),
    decreases events.len(),
{
    if events.len() > 0 {
        let p = events.drop_last();
        assert(distinct_nets(p)) by {
            assert forall|i: int, j: int| 0 <= i < j < p.len() implies #[trigger] p[i].index
                != #[trigger] p[j].index by {
                assert(p[i] == events[i] && p[j] == events[j]);
            }
        }
        lemma_other_events_distinct(p, index);
        lemma_other_events_from(p, index);
        let r = other_events(p, index);
        if events.last().index != index {
            let q = r.push(events.last());
            assert forall|i: int, j: int| 0 <= i < j < q.len() implies #[trigger] q[i].index
                != #[trigger] q[j].index by {
                if j == q.len() - 1 {
                    let w = choose|w: int| 0 <= w < p.len() && #[trigger] p[w] == r[i];
                    assert(events[w] == p[w]);
                    assert(events[events.len() - 1] == events.last());
                } else {
                    assert(q[i] == r[i] && q[j] == r[j]);
                }
            }
        }
    }
}

proof fn lemma_other_events_filter(events: Seq<Event>, index: usize)
    ensures
        other_events(events, index) == events.filter(|e: Event| e.index != index),
    decreases events.len(),
{
    reveal(Seq::filter);
    if events.len() > 0 {
        lemma_other_events_filter(events.drop_last(), index);
    }
}

/// A trigger keeps every event of the other nets: the events left beside the
/// new one are exactly the old events of other nets, in their old order; none
/// of them is lost and none belongs to the triggered net.
pub proof fn lemma_trigger_keeps_other_nets(events: Seq<Event>, index: usize)
    ensures
        other_events(events, index) == events.filter(|e: Event| e.index != index),
        forall|i: int|
            0 <= i < events.len() && events[i].index != index ==> other_events(
                events,
                index,
            ).contains(#[trigger] events[i]),
        forall|k: int|
            0 <= k < other_events(events, index).len() ==> #[trigger] other_events(events, index)[k].index
                != index && events.contains(other_events(events, index)[k]),
{
    lemma_other_events_filter(events, index);
    let f = |e: Event| e.index != index;
    assert forall|i: int| 0 <= i < events.len() && events[i].index != index implies other_events(
        events,
        index,
    ).contains(#[trigger] events[i]) by {
        events.lemma_filter_contains(f, i);
    }
    assert forall|k: int| 0 <= k < other_events(events, index).len() implies #[trigger] other_events(
        events,
        index,
    )[k].index != index && events.contains(other_events(events, index)[k]) by {
        lemma_other_events_from(events, index);
        let j = choose|j: int|
            0 <= j < events.len() && #[trigger] events[j] == other_events(events, index)[k];
        assert(events[j] == other_events(events, index)[k]);
    }
}

/// A trigger leaves exactly one event for the triggered net, the new one,
/// and keeps the schedule free of two events for one net.
pub proof fn lemma_trigger_single_event(
    events: Seq<Event>,
    index: usize,
    delay: usize,
    duration: usize,
)
    ensures
        ({
            let after = other_events(events, index).push(Event { index, delay, duration });
            &&& after.last() == Event { index, delay, duration }
            &&& forall|k: int| 0 <= k < after.len() - 1 ==> #[trigger] after[k].index != index
            &&& distinct_nets(events) ==> distinct_nets(after)
        }),
{
    lemma_other_events_from(events, index);
    let r = other_events(events, index);
    let after = r.push(Event { index, delay, duration });
    assert forall|k: int| 0 <= k < after.len() - 1 implies #[trigger] after[k].index != index by {
        assert(after[k] == r[k]);
    }
    if distinct_nets(events) {
        lemma_other_events_distinct(events, index);
        assert forall|i: int, j: int| 0 <= i < j < after.len() implies #[trigger] after[i].index
            != #[trigger] after[j].index by {
            if j == after.len() - 1 {
                assert(after[i] == r[i]);
            } else {
                assert(after[i] == r[i] && after[j] == r[j]);
            }
        }
    }
}

proof fn lemma_after_step_from(events: Seq<Event>)
    ensures
        forall|k: int|
            #![trigger after_step(events)[k]]
            0 <= k < after_step(events).len() ==> exists|j: int|
                0 <= j < events.len() && events[j].duration != 0 && advance(#[trigger] events[j])
                    == after_step(events)[k],
    decreases events.len(),
{
    if events.len() > 0 {
        let p = events.drop_last();
        lemma_after_step_from(p);
        assert forall|k: int|
            #![trigger after_step(events)[k]]
            0 <= k < after_step(events).len() implies exists|j: int|
                0 <= j < events.len() && events[j].duration != 0 && advance(#[trigger] events[j])
                    == after_step(events)[k] by {
            if k < after_step(p).len() {
                let j = choose|j: int|
                    0 <= j < p.len() && p[j].duration != 0 && advance(#[trigger] p[j])
                        == after_step(p)[k];
                assert(events[j] == p[j]);
            } else {
                assert(events[events.len() - 1] == events.last());
            }
        }
    }
}

/// Moving the schedule on keeps it free of two events for one net, and every
/// event that stays is one sample closer to its end.
pub proof fn lemma_step_keeps_distinct(events: Seq<Event>)
    requires
        distinct_nets(events),
    ensures
        distinct_nets(after_step(events)),
        forall|k: int|
            #![trigger after_step(events)[k]]
            0 <= k < after_step(events).len() ==> exists|j: int|
                0 <= j < events.len() && events[j].duration != 0 && #[trigger] events[j].index
                    == after_step(events)[k].index && after_step(events)[k].delay
                    + after_step(events)[k].duration + 1 == events[j].delay
                    + events[j].duration,
    decreases events.len(),
{
    lemma_after_step_from(events);
    if events.len() > 0 {
        let p = events.drop_last();
        assert(distinct_nets(p)) by {
            assert forall|i: int, j: int| 0 <= i < j < p.len() implies #[trigger] p[i].index
                != #[trigger] p[j].index by {
                assert(p[i] == events[i] && p[j] == events[j]);
            }
        }
        lemma_step_keeps_distinct(p);
        lemma_after_step_from(p);
        let r = after_step(p);
        let e = events.last();
        if e.duration != 0 {
            let q = r.push(advance(e));
            assert forall|i: int, j: int| 0 <= i < j < q.len() implies #[trigger] q[i].index
                != #[trigger] q[j].index by {
                if j == q.len() - 1 {
                    let w = choose|w: int|
                        0 <= w < p.len() && p[w].duration != 0 && advance(#[trigger] p[w]) == r[i];
                    assert(events[w] == p[w]);
                    assert(events[events.len() - 1] == e);
                } else {
                    assert(q[i] == r[i] && q[j] == r[j]);
                }
            }
        }
    }
    assert forall|k: int|
        #![trigger after_step(events)[k]]
        0 <= k < after_step(events).len() implies exists|j: int|
            0 <= j < events.len() && events[j].duration != 0 && #[trigger] events[j].index
                == after_step(events)[k].index && after_step(events)[k].delay
                + after_step(events)[k].duration + 1 == events[j].delay + events[j].duration by {
        let j = choose|j: int|
            0 <= j < events.len() && events[j].duration != 0 && advance(#[trigger] events[j])
                == after_step(events)[k];
        assert(events[j].index == after_step(events)[k].index);
    }
}

/// At most one event of `events` belongs to net `i`.
pub open spec fn unique_net(events: Seq<Event>, i: usize) -> bool {
    forall|a: int, b: int|
        0 <= a < events.len() && 0 <= b < events.len() && #[trigger] events[a].index == i
            && #[trigger] events[b].index == i ==> a == b
}

/// Whether some event of `events` belongs to net `i`.
pub open spec fn has_net(events: Seq<Event>, i: usize) -> bool {
    exists|m: int| 0 <= m < events.len() && #[trigger] events[m].index == i
}

/// The schedule after `k` samples with no new trigger.
pub open spec fn steps(events: Seq<Event>, k: nat) -> Seq<Event>
    decreases k,
{
    if k == 0 {
        events
    } else {
        after_step(steps(events, (k - 1) as nat))
    }
}

/// A lone event after `k` samples, or nothing once it has finished.
pub open spec fn event_after(e: Event, k: nat) -> Option<Event>
    decreases k,
{
    if k == 0 {
        Some(e)
    } else {
        match event_after(e, (k - 1) as nat) {
            Some(x) => if x.duration != 0 {
                Some(advance(x))
            } else {
                None
            },
            None => None,
        }
    }
}

proof fn lemma_step_one_net(events: Seq<Event>, i: usize)
    requires
        unique_net(events, i),
    ensures
        unique_net(after_step(events), i),
        has_net(after_step(events), i) == (exists|j: int|
            0 <= j < events.len() && #[trigger] events[j].index == i && events[j].duration != 0),
        forall|j: int|
            0 <= j < events.len() && #[trigger] events[j].index == i && events[j].duration != 0
                ==> after_step(events).contains(advance(events[j])),
        playing(events).contains(i) == (exists|j: int|
            0 <= j < events.len() && #[trigger] events[j].index == i && events[j].duration != 0
                && events[j].delay == 0),
    decreases events.len(),
{
    if events.len() > 0 {
        let p = events.drop_last();
        let e = events.last();
        assert(unique_net(p, i)) by {
            assert forall|a: int, b: int|
                0 <= a < p.len() && 0 <= b < p.len() && #[trigger] p[a].index == i
                    && #[trigger] p[b].index == i implies a == b by {
                assert(events[a] == p[a] && events[b] == p[b]);
            }
        }
        lemma_step_one_net(p, i);
        let r = after_step(p);
        let q = after_step(events);
        let n = events.len() - 1;
        assert(events[n] == e);
        if e.index == i {
            assert forall|j: int| 0 <= j < p.len() implies #[trigger] p[j].index != i by {
                assert(events[j] == p[j]);
            }
            assert(!has_net(r, i));
        }
        // uniqueness after the step
        assert forall|a: int, b: int|
            0 <= a < q.len() && 0 <= b < q.len() && #[trigger] q[a].index == i
                && #[trigger] q[b].index == i implies a == b by {
            if e.duration != 0 {
                if a < r.len() && b < r.len() {
                    assert(q[a] == r[a] && q[b] == r[b]);
                } else if a < r.len() {
                    assert(q[a] == r[a]);
                    assert(has_net(r, i));
                } else if b < r.len() {
                    assert(q[b] == r[b]);
                    assert(has_net(r, i));
                }
            }
        }
        // which events of net i are left
        if has_net(q, i) {
            let m = choose|m: int| 0 <= m < q.len() && #[trigger] q[m].index == i;
            if e.duration != 0 && m == r.len() {
                assert(events[n].index == i);
            } else {
                assert(q[m] == r[m]);
                assert(has_net(r, i));
                let j = choose|j: int| 0 <= j < p.len() && #[trigger] p[j].index == i && p[j].duration != 0;
                assert(events[j] == p[j]);
            }
        }
        if exists|j: int|
            0 <= j < events.len() && #[trigger] events[j].index == i && events[j].duration != 0 {
            let j = choose|j: int|
                0 <= j < events.len() && #[trigger] events[j].index == i && events[j].duration != 0;
            if j == n {
                assert(q[r.len() as int].index == i);
            } else {
                assert(p[j] == events[j]);
                assert(has_net(r, i));
                let m = choose|m: int| 0 <= m < r.len() && #[trigger] r[m].index == i;
                assert(q[m] == r[m]);
            }
        }
        assert forall|j: int|
            0 <= j < events.len() && #[trigger] events[j].index == i && events[j].duration != 0
                implies q.contains(advance(events[j])) by {
            if j == n {
                assert(q[r.len() as int] == advance(events[j]));
            } else {
                assert(p[j] == events[j]);
                assert(r.contains(advance(p[j])));
                let m = choose|m: int| 0 <= m < r.len() && r[m] == advance(p[j]);
                assert(q[m] == r[m]);
            }
        }
        // playing
        if playing(events).contains(i) {
            let m = choose|m: int| 0 <= m < playing(events).len() && playing(events)[m] == i;
            if e.duration != 0 && e.delay == 0 && m == playing(p).len() {
                assert(events[n].index == i);
            } else {
                assert(playing(p)[m] == i);
                assert(playing(p).contains(i));
                let j = choose|j: int|
                    0 <= j < p.len() && #[trigger] p[j].index == i && p[j].duration != 0 && p[j].delay == 0;
                assert(events[j] == p[j]);
            }
        }
        if exists|j: int|
            0 <= j < events.len() && #[trigger] events[j].index == i && events[j].duration != 0
                && events[j].delay == 0 {
            let j = choose|j: int|
                0 <= j < events.len() && #[trigger] events[j].index == i && events[j].duration != 0
                    && events[j].delay == 0;
            if j == n {
                assert(playing(events)[playing(p).len() as int] == i);
            } else {
                assert(p[j] == events[j]);
                assert(playing(p).contains(i));
                let m = choose|m: int| 0 <= m < playing(p).len() && playing(p)[m] == i;
                assert(playing(events)[m] == i);
            }
        }
    }
}

proof fn lemma_track_event(events: Seq<Event>, e: Event, k: nat)
    requires
        unique_net(events, e.index),
        events.contains(e),
    ensures
        unique_net(steps(events, k), e.index),
        match event_after(e, k) {
            Some(x) => steps(events, k).contains(x) && x.index == e.index,
            None => !has_net(steps(events, k), e.index),
        },
    decreases k,
{
    if k > 0 {
        let j = (k - 1) as nat;
        lemma_track_event(events, e, j);
        let s = steps(events, j);
        lemma_step_one_net(s, e.index);
        match event_after(e, j) {
            Some(x) => {
                let m = choose|m: int| 0 <= m < s.len() && s[m] == x;
                assert(s[m].index == e.index);
                if x.duration == 0 {
                    if has_net(after_step(s), e.index) {
                        let w = choose|w: int|
                            0 <= w < s.len() && #[trigger] s[w].index == e.index && s[w].duration != 0;
                        assert(w == m);
                    }
                } else {
                    assert(after_step(s).contains(advance(s[m])));
                }
            },
            None => {
                if has_net(after_step(s), e.index) {
                    let w = choose|w: int|
                        0 <= w < s.len() && #[trigger] s[w].index == e.index && s[w].duration != 0;
                    assert(has_net(s, e.index));
                }
            },
        }
    }
}

proof fn lemma_event_after(e: Event, k: nat)
    ensures
        event_after(e, k) == (if k == 0 {
            Some(e)
        } else if e.duration == 0 {
            None
        } else if k <= e.delay {
            Some(Event { index: e.index, delay: (e.delay - k) as usize, duration: e.duration })
        } else if k <= e.delay + e.duration {
            Some(
                Event {
                    index: e.index,
                    delay: 0,
                    duration: (e.delay + e.duration - k) as usize,
                },
            )
        } else {
            None
        }),
    decreases k,
{
    let d = e.delay as int;
    let u = e.duration as int;
    if k > 0 {
        let j = (k - 1) as nat;
        lemma_event_after(e, j);
        if u == 0 {
        } else if j < d {
            let x = Event { index: e.index, delay: (d - j) as usize, duration: e.duration };
            if j == 0 {
                assert(x == e);
            }
            assert(event_after(e, k) == Some(advance(x)));
        } else if j < d + u {
            let x = Event { index: e.index, delay: 0, duration: (d + u - j) as usize };
            if j == 0 {
                assert(x == e);
            }
            assert(event_after(e, k) == Some(advance(x)));
        }
    }
}

/// A triggered net plays during exactly the samples from its delay on, for
/// its duration, as long as no new trigger comes: sample `k` after the
/// trigger plays it when `delay <= k < delay + duration`.
pub proof fn lemma_trigger_plays_for_duration(
    events: Seq<Event>,
    index: usize,
    delay: usize,
    duration: usize,
    k: nat,
)
    ensures
        playing(steps(other_events(events, index).push(Event { index, delay, duration }), k)).contains(
            index,
        ) == (delay <= k < delay + duration),
{
    let e = Event { index, delay, duration };
    let s0 = other_events(events, index).push(e);
    lemma_trigger_single_event(events, index, delay, duration);
    assert(unique_net(s0, index)) by {
        assert forall|a: int, b: int|
            0 <= a < s0.len() && 0 <= b < s0.len() && #[trigger] s0[a].index == index
                && #[trigger] s0[b].index == index implies a == b by {
            if a < s0.len() - 1 {
                assert(s0[a].index != index);
            }
            if b < s0.len() - 1 {
                assert(s0[b].index != index);
            }
        }
    }
    assert(s0[s0.len() - 1] == e);
    lemma_track_event(s0, e, k);
    lemma_event_after(e, k);
    let s = steps(s0, k);
    lemma_step_one_net(s, index);
    match event_after(e, k) {
        Some(x) => {
            let m = choose|m: int| 0 <= m < s.len() && s[m] == x;
            assert(s[m].index == index);
            if exists|j: int|
                0 <= j < s.len() && #[trigger] s[j].index == index && s[j].duration != 0
                    && s[j].delay == 0 {
                let j = choose|j: int|
                    0 <= j < s.len() && #[trigger] s[j].index == index && s[j].duration != 0
                        && s[j].delay == 0;
                assert(j == m);
            }
        },
        None => {
            if exists|j: int|
                0 <= j < s.len() && #[trigger] s[j].index == index && s[j].duration != 0
                    && s[j].delay == 0 {
                let j = choose|j: int|
                    0 <= j < s.len() && #[trigger] s[j].index == index && s[j].duration != 0
                        && s[j].delay == 0;
                assert(has_net(s, index));
            }
        },
    }
}

// ---------------------------------------------------------------------------
// control-rate clock
// ---------------------------------------------------------------------------

/// The clock of a net ticked once every `n` samples: `count` is how many
/// samples remain before the next tick of the inner net.
#[derive(Clone, Copy, Debug)]
pub struct KrClock {
    pub n: usize,
    pub count: usize,
}

/// The count of a clock of period `n` after `k` samples from a reset.
pub open spec fn kr_count_after(n: nat, k: nat) -> nat
    decreases k,
{
    if k == 0 {
        0
    } else {
        let c = kr_count_after(n, (k - 1) as nat);
        if c == 0 {
            (n - 1) as nat
        } else {
            (c - 1) as nat
        }
    }
}

impl KrClock {
    /// The clock keeps a positive period and a count below it.
    pub open spec fn wf(&self) -> bool {
        self.n >= 1 && self.count < self.n
    }

    /// A clock of period `n`, due to tick the inner net on the next sample.
    pub fn new(n: usize) -> (c: Self)
        requires
            n >= 1,
        ensures
            c.n == n,
            c.count == 0,
            c.wf(),
    {
        KrClock { n, count: 0 }
    }

    /// Moves the clock one sample on; tells whether the inner net ticks
    /// during that sample (when the count has run out, which restarts it).
    pub fn tick(&mut self) -> (fire: bool)
        requires
            old(self).wf(),
        ensures
            fire == (old(self).count == 0),
            final(self).n == old(self).n,
            final(self).count == (if old(self).count == 0 {
                old(self).n - 1
            } else {
                old(self).count - 1
            }),
            final(self).wf(),
    {
        let fire = self.count == 0;
        if fire {
            self.count = self.n;
        }
        self.count = self.count - 1;
        fire
    }

    /// Restarts the clock: the inner net ticks on the next sample.
    pub fn reset(&mut self)
        requires
            old(self).wf(),
        ensures
            final(self).n == old(self).n,
            final(self).count == 0,
            final(self).wf(),
    {
        self.count = 0;
    }
}

/// From a reset, a clock of period `n` ticks its net on sample `k` exactly
/// when `k` is a multiple of `n`: once every `n` samples.
pub proof fn lemma_kr_ticks_every_n(n: nat, k: nat)
    requires
        n >= 1,
    ensures
        kr_count_after(n, k) == (n - k % n) % (n as int),
        (kr_count_after(n, k) == 0) <==> (k % n == 0),
    decreases k,
{
    vstd::arithmetic::div_mod::lemma_mod_self_0(n as int);
    if k == 0 {
        vstd::arithmetic::div_mod::lemma_small_mod(0, n);
    } else {
        let j = (k - 1) as nat;
        lemma_kr_ticks_every_n(n, j);
        vstd::arithmetic::div_mod::lemma_mod_bound(j as int, n as int);
        vstd::arithmetic::div_mod::lemma_add_mod_noop(j as int, 1, n as int);
        if n == 1 {
            vstd::arithmetic::div_mod::lemma_mod_bound(k as int, 1);
            vstd::arithmetic::div_mod::lemma_mod_bound((n - k % n) as int, 1);
        } else {
            vstd::arithmetic::div_mod::lemma_small_mod(1, n);
            let r = j % n;
            if r + 1 < n {
                vstd::arithmetic::div_mod::lemma_small_mod((r + 1) as nat, n);
                vstd::arithmetic::div_mod::lemma_small_mod((n - (r + 1)) as nat, n);
                if r == 0 {
                } else {
                    vstd::arithmetic::div_mod::lemma_small_mod((n - r) as nat, n);
                }
            } else {
                vstd::arithmetic::div_mod::lemma_small_mod((n - r) as nat, n);
            }
        }
    }
}

// ---------------------------------------------------------------------------
// reset clock
// ---------------------------------------------------------------------------

/// Counts the samples since a net was last reset; the net is reset when the
/// count reaches the period in force.
#[derive(Clone, Copy, Debug)]
pub struct ResetClock {
    pub count: usize,
}

/// The count of a reset clock of fixed period `n` after `k` samples from a
/// reset.
pub open spec fn reset_count_after(n: nat, k: nat) -> nat
    decreases k,
{
    if k == 0 {
        0
    } else {
        let c = reset_count_after(n, (k - 1) as nat);
        if c >= n {
            1
        } else {
            c + 1
        }
    }
}

impl ResetClock {
    /// A clock that has just reset its net.
    pub fn new() -> (c: Self)
        ensures
            c.count == 0,
    {
        ResetClock { count: 0 }
    }

    /// Moves the clock one sample on under period `n`; tells whether the net
    /// is reset before that sample (when the count has reached `n`).
    pub fn tick(&mut self, n: usize) -> (reset: bool)
        ensures
            reset == (old(self).count >= n),
            final(self).count == (if old(self).count >= n {
                1
            } else {
                old(self).count + 1
            }),
    {
        let reset = self.count >= n;
        if reset {
            self.count = 0;
        }
        self.count = self.count + 1;
        reset
    }

    /// Restarts the count.
    pub fn reset(&mut self)
        ensures
            final(self).count == 0,
    {
        self.count = 0;
    }
}

/// From a reset, a reset clock of period `n` resets its net before sample
/// `k` exactly when `k` is a positive multiple of `n`: every `n` samples.
pub proof fn lemma_reset_every_n(n: nat, k: nat)
    requires
        n >= 1,
    ensures
        k >= 1 ==> reset_count_after(n, k) == (k - 1) % (n as int) + 1,
        (reset_count_after(n, k) >= n) <==> (k >= 1 && k % n == 0),
    decreases k,
{
    vstd::arithmetic::div_mod::lemma_mod_self_0(n as int);
    if k == 0 {
    } else {
        let j = (k - 1) as nat;
        lemma_reset_every_n(n, j);
        vstd::arithmetic::div_mod::lemma_mod_bound(j as int, n as int);
        vstd::arithmetic::div_mod::lemma_mod_bound(k as int, n as int);
        vstd::arithmetic::div_mod::lemma_add_mod_noop(j as int, 1, n as int);
        if n == 1 {
            vstd::arithmetic::div_mod::lemma_mod_bound(j as int, 1);
        } else {
            vstd::arithmetic::div_mod::lemma_small_mod(1, n);
            if j == 0 {
                vstd::arithmetic::div_mod::lemma_small_mod(0, n);
            } else {
                let jm = (j - 1) as nat;
                vstd::arithmetic::div_mod::lemma_mod_bound(jm as int, n as int);
                vstd::arithmetic::div_mod::lemma_add_mod_noop(jm as int, 1, n as int);
                let r = jm % n;
                if r + 1 < n {
                    vstd::arithmetic::div_mod::lemma_small_mod((r + 1) as nat, n);
                } else {
                }
            }
            let q = j % n;
            if q + 1 < n {
                vstd::arithmetic::div_mod::lemma_small_mod((q + 1) as nat, n);
            }
        }
    }
}

// ---------------------------------------------------------------------------
// fft window
// ---------------------------------------------------------------------------

/// The position in the window of a sample-by-sample fft of size `n`: each
/// sample goes to slot `count`, and the transform runs when the window
/// wraps to slot 0. `start` is where a reset puts the position.
#[derive(Clone, Copy, Debug)]
pub struct FftCursor {
    pub n: usize,
    pub count: usize,
    pub start: usize,
}

impl FftCursor {
    /// The size is positive and both positions lie in the window.
    pub open spec fn wf(&self) -> bool {
        self.n >= 1 && self.count < self.n && self.start < self.n
    }

    /// A window of size `n` starting at slot `start`.
    pub fn new(n: usize, start: usize) -> (c: Self)
        requires
            start < n,
        ensures
            c.n == n,
            c.count == start,
            c.start == start,
            c.wf(),
    {
        FftCursor { n, count: start, start }
    }

    /// Moves on one sample: returns the slot of this sample and whether the
    /// transform runs before it (at slot 0).
    pub fn tick(&mut self) -> (r: (usize, bool))
        requires
            old(self).wf(),
        ensures
            r.0 == old(self).count,
            r.1 == (old(self).count == 0),
            final(self).n == old(self).n,
            final(self).start == old(self).start,
            final(self).count == (if old(self).count + 1 == old(self).n {
                0
            } else {
                old(self).count + 1
            }),
            final(self).wf(),
    {
        let i = self.count;
        self.count = self.count + 1;
        if self.count == self.n {
            self.count = 0;
        }
        (i, i == 0)
    }

    /// Puts the position back at the start.
    pub fn reset(&mut self)
        requires
            old(self).wf(),
        ensures
            final(self).n == old(self).n,
            final(self).start == old(self).start,
            final(self).count == old(self).start,
            final(self).wf(),
    {
        self.count = self.start;
    }
}

/// The spectrum bin a real transform of size `n` reports at slot `i`: the
/// slot itself up to the middle, and past the middle the mirrored bin, whose
/// value is the conjugate (the second component tells).
pub fn spectrum_bin(n: usize, i: usize) -> (r: (usize, bool))
    requires
        i < n,
    ensures
        r == (if i <= n / 2 {
            (i, false)
        } else {
            ((n - i) as usize, true)
        }),
        r.0 <= n / 2,
{
    if i <= n / 2 {
        (i, false)
    } else {
        (n - i, true)
    }
}

// ---------------------------------------------------------------------------
// shift register
// ---------------------------------------------------------------------------

/// The number of stages of a shift register.
pub const STAGES: usize = 8;

/// A shift register of eight stages: on a trigger each stage takes the value
/// of the one before it and the first takes the input.
#[derive(Clone, Debug)]
pub struct ShiftRegister<T> {
    pub stages: Vec<T>,
}

impl<T: Copy> ShiftRegister<T> {
    /// Every stage holds `zero`.
    pub fn new(zero: T) -> (r: Self)
        ensures
            r.stages@ == Seq::new(STAGES as nat, |i: int| zero),
    {
        let mut stages: Vec<T> = Vec::new();
        let mut i: usize = 0;
        while i < STAGES
            invariant
                i <= STAGES,
                stages@ == Seq::new(i as nat, |k: int| zero),
            decreases STAGES - i,
        {
            stages.push(zero);
            i += 1;
        }
        ShiftRegister { stages }
    }

    /// Shifts `x` in: the stages move one place on and the last value leaves.
    pub fn shift(&mut self, x: T)
        requires
            old(self).stages.len() == STAGES,
        ensures
            final(self).stages@ == seq![x] + old(self).stages@.take(STAGES - 1),
    {
        let mut i: usize = STAGES - 1;
        while i > 0
            invariant
                0 <= i < STAGES,
                self.stages.len() == STAGES,
                forall|k: int| 0 <= k <= i ==> self.stages@[k] == old(self).stages@[k],
                forall|k: int| i < k < STAGES ==> self.stages@[k] == old(self).stages@[k - 1],
            decreases i,
        {
            let v = self.stages[i - 1];
            self.stages.set(i, v);
            i -= 1;
        }
        self.stages.set(0, x);
        assert(self.stages@ =~= seq![x] + old(self).stages@.take(STAGES - 1));
    }

    /// Every stage goes back to `zero`.
    pub fn clear(&mut self, zero: T)
        requires
            old(self).stages.len() == STAGES,
        ensures
            final(self).stages@ == Seq::new(STAGES as nat, |i: int| zero),
    {
        let mut i: usize = 0;
        while i < STAGES
            invariant
                i <= STAGES,
                self.stages.len() == STAGES,
                forall|k: int| 0 <= k < i ==> self.stages@[k] == zero,
            decreases STAGES - i,
        {
            self.stages.set(i, zero);
            i += 1;
        }
        assert(self.stages@ =~= Seq::new(STAGES as nat, |i: int| zero));
    }
}

// ---------------------------------------------------------------------------
// sample delay
// ---------------------------------------------------------------------------

/// The delay line after the samples `xs` went in, one per tick, starting
/// from `buf`: each sample enters at the front and the oldest one leaves.
pub open spec fn delay_after<T>(buf: Seq<T>, xs: Seq<T>) -> Seq<T>
    decreases xs.len(),
{
    if xs.len() == 0 {
        buf
    } else {
        (seq![xs.last()] + delay_after(buf, xs.drop_last())).drop_last()
    }
}

/// A delay line of fixed length: each tick a sample goes in at the front,
/// the oldest leaves at the back, and the sample at a given distance is read.
#[derive(Clone, Debug)]
pub struct SampleDelay<T> {
    pub buffer: VecDeque<T>,
    pub max: usize,
}

impl<T: Copy> SampleDelay<T> {
    /// A line of `max` samples, all `zero`.
    pub fn new(max: usize, zero: T) -> (d: Self)
        ensures
            d.max == max,
            d.buffer@ == Seq::new(max as nat, |i: int| zero),
    {
        let mut buffer: VecDeque<T> = VecDeque::new();
        let mut i: usize = 0;
        while i < max
            invariant
                i <= max,
                buffer@ == Seq::new(i as nat, |k: int| zero),
            decreases max - i,
        {
            buffer.push_back(zero);
            assert(buffer@ =~= Seq::new((i + 1) as nat, |k: int| zero));
            i += 1;
        }
        SampleDelay { buffer, max }
    }

    /// Puts `x` in and reads the sample `k` ticks old (`x` itself at 0), or
    /// nothing when `k` is past the end of the line.
    pub fn tick(&mut self, x: T, k: usize) -> (out: Option<T>)
        ensures
            final(self).max == old(self).max,
            final(self).buffer@ == (seq![x] + old(self).buffer@).drop_last(),
            out == (if k < old(self).buffer@.len() {
                Some(final(self).buffer@[k as int])
            } else {
                None
            }),
    {
        self.buffer.push_front(x);
        let _ = self.buffer.pop_back();
        assert(self.buffer@ =~= (seq![x] + old(self).buffer@).drop_last());
        if k < self.buffer.len() {
            Some(self.buffer[k])
        } else {
            None
        }
    }

    /// Fills the line with `zero` again, at its full length.
    pub fn clear(&mut self, zero: T)
        ensures
            final(self).max == old(self).max,
            final(self).buffer@ == Seq::new(old(self).max as nat, |i: int| zero),
    {
        let fresh = SampleDelay::new(self.max, zero);
        self.buffer = fresh.buffer;
    }
}

proof fn lemma_delay_len<T>(buf: Seq<T>, xs: Seq<T>)
    ensures
        delay_after(buf, xs).len() == buf.len(),
    decreases xs.len(),
{
    if xs.len() > 0 {
        lemma_delay_len(buf, xs.drop_last());
    }
}

/// A delay line keeps its length, and a sample that went in `k` ticks ago is
/// the one read at distance `k`, while it is still on the line.
pub proof fn lemma_delay_reads_back<T>(buf: Seq<T>, xs: Seq<T>, k: int)
    requires
        0 <= k < buf.len(),
        k < xs.len(),
    ensures
        delay_after(buf, xs).len() == buf.len(),
        delay_after(buf, xs)[k] == xs[xs.len() - 1 - k],
    decreases xs.len(),
{
    lemma_delay_len(buf, xs);
    lemma_delay_len(buf, xs.drop_last());
    if k > 0 {
        lemma_delay_reads_back(buf, xs.drop_last(), k - 1);
    }
}

} // verus!
