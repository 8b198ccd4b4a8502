use vstd::prelude::*;

verus! {

/// The op number of `process`, whose targets are processed after the queue.
pub const PROCESS_OP: u16 = 92;

/// The highest order among `entries`, or 0 when there are none.
pub open spec fn max_order<E>(entries: Seq<(E, usize)>) -> nat
    decreases entries.len(),
{
    if entries.len() == 0 {
        0
    } else {
        let m = max_order(entries.drop_last());
        if entries.last().1 > m {
            entries.last().1 as nat
        } else {
            m
        }
    }
}

/// The entities of `entries` whose order is `order`, in the order given.
pub open spec fn with_order<E>(entries: Seq<(E, usize)>, order: nat) -> Seq<E>
    decreases entries.len(),
{
    if entries.len() == 0 {
        Seq::empty()
    } else {
        let p = with_order(entries.drop_last(), order);
        if entries.last().1 == order {
            p.push(entries.last().0)
        } else {
            p
        }
    }
}

/// The number of layers of the processing queue: one per order up to the
/// highest, and at least one.
pub open spec fn queue_len<E>(entries: Seq<(E, usize)>) -> nat {
    if max_order(entries) > 1 {
        max_order(entries)
    } else {
        1
    }
}

proof fn lemma_max_order_bound<E>(entries: Seq<(E, usize)>, i: int)
    requires
        0 <= i < entries.len(),
    ensures
        entries[i].1 <= max_order(entries),
    decreases entries.len(),
{
    if i < entries.len() - 1 {
        lemma_max_order_bound(entries.drop_last(), i);
    }
}

/// Builds the processing queue from each network circle and its order:
/// layer `k` holds, in the order given, the entities of order `k + 1`;
/// entities of order 0 are left out. There is a layer for every order up to
/// the highest, and always at least one.
pub fn sort_by_order<E: Copy>(entries: &Vec<(E, usize)>) -> (queue: Vec<Vec<E>>)
    ensures
        queue@.len() == queue_len(entries@),
        forall|k: int|
            0 <= k < queue@.len() ==> #[trigger] queue@[k]@ == with_order(entries@, (k + 1) as nat),
{
    let mut queue: Vec<Vec<E>> = Vec::new();
    queue.push(Vec::new());
    let mut i: usize = 0;
    while i < entries.len()
        invariant
            i <= entries@.len(),
            queue@.len() == queue_len(entries@.take(i as int)),
            forall|k: int|
                0 <= k < queue@.len() ==> #[trigger] queue@[k]@ == with_order(
                    entries@.take(i as int),
                    (k + 1) as nat,
                ),
        decreases entries@.len() - i,
    {
        let (e, order) = entries[i];
        let ghost before = entries@.take(i as int);
        let ghost after = entries@.take(i + 1);
        proof {
            assert(after.drop_last() =~= before);
            assert(after.last() == (e, order));
        }
        if order > 0 {
            while queue.len() < order
                invariant
                    queue_len(before) <= queue@.len(),
                    queue@.len() <= order || queue@.len() == queue_len(before),
                    forall|k: int|
                        0 <= k < queue@.len() ==> #[trigger] queue@[k]@ == with_order(
                            before,
                            (k + 1) as nat,
                        ),
                    forall|k: int|
                        queue_len(before) <= k < queue@.len() ==> #[trigger] queue@[k]@
                            == Seq::<E>::empty(),
                decreases order - queue@.len(),
            {
                proof {
                    let k = queue@.len() as int;
                    lemma_with_order_absent(before, (k + 1) as nat);
                }
                queue.push(Vec::new());
            }
            queue[order - 1].push(e);
        }
        proof {
            assert(queue@.len() == queue_len(after));
            assert forall|k: int| 0 <= k < queue@.len() implies #[trigger] queue@[k]@
                == with_order(after, (k + 1) as nat) by {
                assert(with_order(after, (k + 1) as nat) == (if order == k + 1 {
                    with_order(before, (k + 1) as nat).push(e)
                } else {
                    with_order(before, (k + 1) as nat)
                }));
            }
        }
        i = i + 1;
    }
    assert(entries@.take(i as int) =~= entries@);
    queue
}

/// No entity has an order above the highest order.
proof fn lemma_with_order_absent<E>(entries: Seq<(E, usize)>, order: nat)
    requires
        order > max_order(entries),
    ensures
        with_order(entries, order) == Seq::<E>::empty(),
    decreases entries.len(),
{
    if entries.len() > 0 {
        lemma_with_order_absent(entries.drop_last(), order);
    }
}

/// The circles that a `process` circle's targets make it run after the
/// queue: for each queued circle in turn, when its op is `process`, its
/// targets that are circles (not holes), in target order.
pub open spec fn loop_targets<E>(queued: Seq<(u16, Seq<(E, bool)>)>) -> Seq<E>
    decreases queued.len(),
{
    if queued.len() == 0 {
        Seq::empty()
    } else {
        let p = loop_targets(queued.drop_last());
        if queued.last().0 == PROCESS_OP {
            p + circles_among(queued.last().1)
        } else {
            p
        }
    }
}

/// The entities of `targets` that are marked as circles, in order.
pub open spec fn circles_among<E>(targets: Seq<(E, bool)>) -> Seq<E>
    decreases targets.len(),
{
    if targets.len() == 0 {
        Seq::empty()
    } else {
        let p = circles_among(targets.drop_last());
        if targets.last().1 {
            p.push(targets.last().0)
        } else {
            p
        }
    }
}

/// A queued circle as the loop queue reads it: its op number and its
/// targets, each marked with whether it is a circle.
pub struct QueuedCircle<E> {
    pub op_num: u16,
    pub targets: Vec<(E, bool)>,
}

/// The abstract form of a queued circle.
pub open spec fn queued_view<E>(q: QueuedCircle<E>) -> (u16, Seq<(E, bool)>) {
    (q.op_num, q.targets@)
}

/// Gathers, in queue order, the circle targets of every `process` circle in
/// the queue: these run once more after the queue, in that order.
pub fn prepare_loop_queue<E: Copy>(queued: &Vec<QueuedCircle<E>>) -> (loopq: Vec<E>)
    ensures
        loopq@ == loop_targets(queued@.map_values(|q: QueuedCircle<E>| queued_view(q))),
{
    let ghost all = queued@.map_values(|q: QueuedCircle<E>| queued_view(q));
    let mut loopq: Vec<E> = Vec::new();
    let mut i: usize = 0;
    while i < queued.len()
        invariant
            i <= queued@.len(),
            all == queued@.map_values(|q: QueuedCircle<E>| queued_view(q)),
            loopq@ == loop_targets(all.take(i as int)),
        decreases queued@.len() - i,
    {
        let q = &queued[i];
        proof {
            assert(all.take(i + 1).drop_last() =~= all.take(i as int));
            assert(all.take(i + 1).last() == queued_view(queued@[i as int]));
        }
        if q.op_num == PROCESS_OP {
            let ghost start = loopq@;
            let mut j: usize = 0;
            while j < q.targets.len()
                invariant
                    j <= q.targets@.len(),
                    loopq@ == start + circles_among(q.targets@.take(j as int)),
                decreases q.targets@.len() - j,
            {
                let (t, is_circle) = q.targets[j];
                proof {
                    assert(q.targets@.take(j + 1).drop_last() =~= q.targets@.take(j as int));
                }
                if is_circle {
                    loopq.push(t);
                }
                j = j + 1;
                assert(loopq@ =~= start + circles_among(q.targets@.take(j as int)));
            }
            assert(q.targets@.take(j as int) =~= q.targets@);
        }
        i = i + 1;
    }
    assert(all.take(i as int) =~= all);
    loopq
}

/// The order a sink gets when it is connected to a source: it must process
/// after the source, so it moves to one above the source's order when it is
/// not already above it. Also tells whether the order changed.
pub fn order_after_connect(src_order: usize, snk_order: usize) -> (r: (usize, bool))
    requires
        src_order < usize::MAX,
    ensures
        r.0 == (if snk_order <= src_order {
            src_order + 1
        } else {
            snk_order as int
        }),
        r.1 == (snk_order <= src_order),
{
    if snk_order <= src_order {
        (src_order + 1, true)
    } else {
        (snk_order, false)
    }
}

/// After a connection the sink always processes after the source, and a
/// sink already after the source keeps its order.
pub proof fn lemma_connect_orders_sink_after_source(src_order: usize, snk_order: usize)
    requires
        src_order < usize::MAX,
    ensures
        ({
            let new_order = if snk_order <= src_order {
                src_order + 1
            } else {
                snk_order as int
            };
            &&& new_order > src_order
            &&& new_order >= snk_order
            &&& snk_order > src_order ==> new_order == snk_order
        }),
{
}

/// The order after the `]` (up) or `[` (down) key command: up adds one,
/// down takes one away but never goes below 0.
pub fn step_order(order: usize, up: bool) -> (r: usize)
    requires
        up ==> order < usize::MAX,
    ensures
        r == (if up {
            order + 1
        } else if order > 0 {
            order - 1
        } else {
            0int
        }),
{
    if up {
        order + 1
    } else if order > 0 {
        order - 1
    } else {
        0
    }
}

/// `x` is the entity of some entry of order `order`.
pub open spec fn entered_with<E>(entries: Seq<(E, usize)>, x: E, order: nat) -> bool {
    exists|j: int| 0 <= j < entries.len() && #[trigger] entries[j] == (x, order as usize) && order <= usize::MAX
}

proof fn lemma_with_order_from<E>(entries: Seq<(E, usize)>, order: nat)
    ensures
        forall|m: int|
            0 <= m < with_order(entries, order).len() ==> entered_with(
                entries,
                #[trigger] with_order(entries, order)[m],
                order,
            ),
    decreases entries.len(),
{
    if entries.len() > 0 {
        let p = entries.drop_last();
        lemma_with_order_from(p, order);
        assert forall|m: int| 0 <= m < with_order(entries, order).len() implies entered_with(
            entries,
            #[trigger] with_order(entries, order)[m],
            order,
        ) by {
            if m < with_order(p, order).len() {
                assert(entered_with(p, with_order(p, order)[m], order));
                let j = choose|j: int|
                    0 <= j < p.len() && #[trigger] p[j] == (with_order(p, order)[m], order as usize)
                        && order <= usize::MAX;
                assert(entries[j] == p[j]);
            } else {
                assert(entries[entries.len() - 1] == entries.last());
            }
        }
    }
}

proof fn lemma_with_order_has<E>(entries: Seq<(E, usize)>, i: int)
    requires
        0 <= i < entries.len(),
    ensures
        with_order(entries, entries[i].1 as nat).contains(entries[i].0),
    decreases entries.len(),
{
    let p = entries.drop_last();
    let o = entries[i].1 as nat;
    if i < entries.len() - 1 {
        lemma_with_order_has(p, i);
        assert(p[i] == entries[i]);
        let m = choose|m: int| 0 <= m < with_order(p, o).len() && with_order(p, o)[m] == entries[i].0;
        if entries.last().1 == o {
            assert(with_order(entries, o)[m] == entries[i].0);
        }
    } else {
        assert(with_order(entries, o)[with_order(p, o).len() as int] == entries[i].0);
    }
}

/// The queue processes circles by order: each layer holds only entities of
/// its order (so nothing of order 0 is queued), and every entity of positive
/// order is in the layer of its order, so lower orders come first.
pub proof fn lemma_queue_by_order<E>(entries: Seq<(E, usize)>)
    ensures
        forall|k: int, m: int|
            0 <= k < queue_len(entries) && 0 <= m < with_order(entries, (k + 1) as nat).len()
                ==> entered_with(entries, #[trigger] with_order(entries, (k + 1) as nat)[m], (k + 1) as nat),
        forall|i: int|
            0 <= i < entries.len() && #[trigger] entries[i].1 >= 1 ==> entries[i].1 <= queue_len(
                entries,
            ) && with_order(entries, entries[i].1 as nat).contains(entries[i].0),
{
    assert forall|k: int, m: int|
        0 <= k < queue_len(entries) && 0 <= m < with_order(entries, (k + 1) as nat).len()
            implies entered_with(entries, #[trigger] with_order(entries, (k + 1) as nat)[m], (k + 1) as nat) by {
        lemma_with_order_from(entries, (k + 1) as nat);
    }
    assert forall|i: int| 0 <= i < entries.len() && #[trigger] entries[i].1 >= 1 implies entries[i].1
        <= queue_len(entries) && with_order(entries, entries[i].1 as nat).contains(entries[i].0) by {
        lemma_max_order_bound(entries, i);
        lemma_with_order_has(entries, i);
    }
}

} // verus!
