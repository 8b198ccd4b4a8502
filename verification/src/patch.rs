use std::collections::{HashMap, HashSet};
use vstd::prelude::*;
use vstd::std_specs::iter::IteratorSpec;

verus! {

broadcast use vstd::std_specs::hash::group_hash_axioms;

/// The receiving end of a connection, on the sink circle. It reads from the
/// black hole `bh` on the source circle `bh_parent`; `link_types` says what
/// it reads there (first) and what it writes on its own circle (second), and
/// `open` marks that there is something new to read.
#[derive(Clone, Copy, PartialEq, Eq, Debug)]
pub struct WhiteHole {
    pub bh: u64,
    pub bh_parent: u64,
    pub link_types: (i8, i8),
    pub open: bool,
}

/// The sending end of a connection, on the source circle: its white hole
/// `wh` sits on the sink circle `wh_parent`.
#[derive(Clone, Copy, PartialEq, Eq, Structural, Debug)]
pub struct BlackHole {
    pub wh: u64,
    pub wh_parent: u64,
}

/// The connections of a patch: each circle with its holes, and the white and
/// black holes by id.
pub struct Patch {
    pub holes: HashMap<u64, Vec<u64>>,
    pub white: HashMap<u64, WhiteHole>,
    pub black: HashMap<u64, BlackHole>,
}

/// A white hole with its open flag set to `open`.
pub open spec fn with_open(w: WhiteHole, open: bool) -> WhiteHole {
    WhiteHole { bh: w.bh, bh_parent: w.bh_parent, link_types: w.link_types, open }
}

/// Whether a white hole has something for its circle to read: it is open,
/// and an array reader (first link type -13) only reads into an array.
pub open spec fn readable(w: WhiteHole) -> bool {
    w.open && !(w.link_types.0 == -13 && w.link_types.1 != -13)
}

/// Whether one of the black holes among `holes` sends into white hole `k`.
pub open spec fn fed_by(black: Map<u64, BlackHole>, holes: Seq<u64>, k: u64) -> bool {
    exists|i: int| 0 <= i < holes.len() && black.contains_key(holes[i]) && #[trigger] black[holes[i]].wh == k
}

/// The white holes after the circle with holes `holes` has new output of
/// link type `lt`: every white hole it feeds that reads that link type opens.
pub open spec fn readers_opened(
    white: Map<u64, WhiteHole>,
    black: Map<u64, BlackHole>,
    holes: Seq<u64>,
    lt: i8,
) -> Map<u64, WhiteHole> {
    Map::new(
        |k: u64| white.contains_key(k),
        |k: u64|
            if fed_by(black, holes, k) && white[k].link_types.0 == lt {
                with_open(white[k], true)
            } else {
                white[k]
            },
    )
}

/// The white holes after those among `ids` get their open flag set to `open`.
pub open spec fn opened_to(white: Map<u64, WhiteHole>, ids: Seq<u64>, open: bool) -> Map<
    u64,
    WhiteHole,
> {
    Map::new(
        |k: u64| white.contains_key(k),
        |k: u64|
            if ids.contains(k) {
                with_open(white[k], open)
            } else {
                white[k]
            },
    )
}

impl Patch {
    /// A patch with no circles and no connections.
    pub fn new() -> (p: Self)
        ensures
            p.holes@ == Map::<u64, Vec<u64>>::empty(),
            p.white@ == Map::<u64, WhiteHole>::empty(),
            p.black@ == Map::<u64, BlackHole>::empty(),
    {
        Patch { holes: HashMap::new(), white: HashMap::new(), black: HashMap::new() }
    }

    /// The link types of `hole` when it is a white hole with something to
    /// read, else nothing.
    pub fn read_input(&self, hole: u64) -> (r: Option<(i8, i8)>)
        ensures
            r == (if self.white@.contains_key(hole) && readable(self.white@[hole]) {
                Some(self.white@[hole].link_types)
            } else {
                None
            }),
    {
        match self.white.get(&hole) {
            Some(w) => {
                if w.open && !(w.link_types.0 == -13 && w.link_types.1 != -13) {
                    Some(w.link_types)
                } else {
                    None
                }
            },
            None => None,
        }
    }

    /// The white hole `hole`, when it is one that reads link types `lts`
    /// (and, where `open_only`, is open): the input an op takes from it.
    pub fn reader(&self, hole: u64, lts: (i8, i8), open_only: bool) -> (r: Option<WhiteHole>)
        ensures
            r == (if self.white@.contains_key(hole) && self.white@[hole].link_types == lts && (
            !open_only || self.white@[hole].open) {
                Some(self.white@[hole])
            } else {
                None
            }),
    {
        match self.white.get(&hole) {
            Some(w) => {
                if w.link_types.0 == lts.0 && w.link_types.1 == lts.1 && (!open_only || w.open) {
                    Some(*w)
                } else {
                    None
                }
            },
            None => None,
        }
    }

    /// The circle with holes `holes` has new output of link type `lt`: opens
    /// every white hole that one of its black holes feeds and that reads `lt`.
    pub fn open_readers(&mut self, holes: &Vec<u64>, lt: i8)
        ensures
            final(self).white@ == readers_opened(old(self).white@, old(self).black@, holes@, lt),
            final(self).black@ == old(self).black@,
            final(self).holes@ == old(self).holes@,
    {
        let mut i: usize = 0;
        while i < holes.len()
            invariant
                i <= holes.len(),
                self.black@ == old(self).black@,
                self.holes@ == old(self).holes@,
                self.white@ == readers_opened(
                    old(self).white@,
                    old(self).black@,
                    holes@.take(i as int),
                    lt,
                ),
            decreases holes.len() - i,
        {
            let h = holes[i];
            let ghost before = self.white@;
            let mut target: Option<u64> = None;
            match self.black.get(&h) {
                Some(b) => {
                    match self.white.get(&b.wh) {
                        Some(w) => {
                            if w.link_types.0 == lt {
                                target = Some(b.wh);
                            }
                        },
                        None => {},
                    }
                },
                None => {},
            }
            match target {
                Some(k) => {
                    let w = *self.white.get(&k).unwrap();
                    self.white.insert(
                        k,
                        WhiteHole { bh: w.bh, bh_parent: w.bh_parent, link_types: w.link_types, open: true },
                    );
                },
                None => {},
            }
            proof {
                let pre = holes@.take(i as int);
                let post = holes@.take(i + 1);
                assert forall|k: u64| #[trigger] fed_by(old(self).black@, post, k) == (fed_by(
                    old(self).black@,
                    pre,
                    k,
                ) || (old(self).black@.contains_key(h) && old(self).black@[h].wh == k)) by {
                    if fed_by(old(self).black@, pre, k) {
                        let j = choose|j: int|
                            0 <= j < pre.len() && old(self).black@.contains_key(pre[j])
                                && #[trigger] old(self).black@[pre[j]].wh == k;
                        assert(post[j] == pre[j]);
                    }
                    if old(self).black@.contains_key(h) && old(self).black@[h].wh == k {
                        assert(post[i as int] == h);
                    }
                    if fed_by(old(self).black@, post, k) {
                        let j = choose|j: int|
                            0 <= j < post.len() && old(self).black@.contains_key(post[j])
                                && #[trigger] old(self).black@[post[j]].wh == k;
                        if j < i {
                            assert(pre[j] == post[j]);
                        }
                    }
                }
                assert(self.white@ =~= readers_opened(
                    old(self).white@,
                    old(self).black@,
                    post,
                    lt,
                ));
            }
            i += 1;
        }
        proof {
            assert(holes@.take(i as int) =~= holes@);
        }
    }

    /// Sets the open flag of the white holes among `ids` to `open`; other ids
    /// are left alone.
    pub fn set_open(&mut self, ids: &Vec<u64>, open: bool)
        ensures
            final(self).white@ == opened_to(old(self).white@, ids@, open),
            final(self).black@ == old(self).black@,
            final(self).holes@ == old(self).holes@,
    {
        let mut i: usize = 0;
        while i < ids.len()
            invariant
                i <= ids.len(),
                self.black@ == old(self).black@,
                self.holes@ == old(self).holes@,
                self.white@ == opened_to(old(self).white@, ids@.take(i as int), open),
            decreases ids.len() - i,
        {
            let k = ids[i];
            let mut found: Option<WhiteHole> = None;
            match self.white.get(&k) {
                Some(w) => {
                    found = Some(*w);
                },
                None => {},
            }
            match found {
                Some(w) => {
                    self.white.insert(
                        k,
                        WhiteHole { bh: w.bh, bh_parent: w.bh_parent, link_types: w.link_types, open },
                    );
                },
                None => {},
            }
            proof {
                let pre = ids@.take(i as int);
                let post = ids@.take(i + 1);
                assert(post =~= pre.push(k));
                assert forall|x: u64| #[trigger] post.contains(x) == (pre.contains(x) || x == k) by {
                    if pre.contains(x) {
                        let j = choose|j: int| 0 <= j < pre.len() && pre[j] == x;
                        assert(post[j] == x);
                    }
                    if x == k {
                        assert(post[i as int] == x);
                    }
                }
                assert(self.white@ =~= opened_to(old(self).white@, post, open));
            }
            i += 1;
        }
        proof {
            assert(ids@.take(i as int) =~= ids@);
        }
    }

    /// The end of a circle's turn: when it produced output of link type `lt`
    /// the white holes reading that from it open, then its own white holes,
    /// just read, close.
    pub fn finish(&mut self, holes: &Vec<u64>, lt_to_open: Option<i8>)
        ensures
            final(self).white@ == turn(old(self).white@, old(self).black@, holes@, lt_to_open),
            final(self).black@ == old(self).black@,
            final(self).holes@ == old(self).holes@,
    {
        match lt_to_open {
            Some(lt) => self.open_readers(holes, lt),
            None => {},
        }
        self.set_open(holes, false);
    }
}

/// After a circle's turn none of its own white holes is open, and a white
/// hole of another circle is open exactly when it was, or when it reads the
/// link type just produced from one of this circle's black holes.
pub proof fn lemma_finish_closes_inputs(
    white: Map<u64, WhiteHole>,
    black: Map<u64, BlackHole>,
    holes: Seq<u64>,
    lt: i8,
)
    ensures
        ({
            let after = opened_to(readers_opened(white, black, holes, lt), holes, false);
            &&& after.dom() == white.dom()
            &&& forall|k: u64|
                #![trigger after[k]]
                white.contains_key(k) ==> {
                    &&& after[k].link_types == white[k].link_types
                    &&& after[k].bh == white[k].bh
                    &&& after[k].bh_parent == white[k].bh_parent
                    &&& holes.contains(k) ==> !after[k].open
                    &&& !holes.contains(k) ==> (after[k].open == (white[k].open || (fed_by(
                        black,
                        holes,
                        k,
                    ) && white[k].link_types.0 == lt)))
                }
        }),
{
    let after = opened_to(readers_opened(white, black, holes, lt), holes, false);
    assert(after.dom() =~= white.dom());
}

/// The white holes after the turn of the circle with holes `holes`: when it
/// produced output of link type `lt` the white holes reading that from it
/// open, then its own white holes, just read, close.
pub open spec fn turn(
    white: Map<u64, WhiteHole>,
    black: Map<u64, BlackHole>,
    holes: Seq<u64>,
    lt: Option<i8>,
) -> Map<u64, WhiteHole> {
    opened_to(
        match lt {
            Some(l) => readers_opened(white, black, holes, l),
            None => white,
        },
        holes,
        false,
    )
}

/// The white holes after a frame: the circles of `queue` take their turns in
/// queue order, each with the link type of the output it produced, if any.
pub open spec fn frame_after(
    white: Map<u64, WhiteHole>,
    black: Map<u64, BlackHole>,
    holes: Map<u64, Vec<u64>>,
    queue: Seq<(u64, Option<i8>)>,
) -> Map<u64, WhiteHole>
    decreases queue.len(),
{
    if queue.len() == 0 {
        white
    } else {
        let w = frame_after(white, black, holes, queue.drop_last());
        let c = queue.last().0;
        if holes.contains_key(c) {
            turn(w, black, holes[c]@, queue.last().1)
        } else {
            w
        }
    }
}

/// `h` is a white hole of circle `c`.
pub open spec fn input_of(
    holes: Map<u64, Vec<u64>>,
    white: Map<u64, WhiteHole>,
    c: u64,
    h: u64,
) -> bool {
    holes.contains_key(c) && holes[c]@.contains(h) && white.contains_key(h)
}

/// Every input change of a frame is read once: when the circles take their
/// turns by order (a circle's sources before it, circles of equal order in
/// any sequence), no white hole of a circle that took its turn is left open
/// at the end of the frame, since only its circle's own turn, which closes
/// it, comes after every turn that could open it.
pub proof fn lemma_frame_consumes_inputs(
    holes: Map<u64, Vec<u64>>,
    white: Map<u64, WhiteHole>,
    black: Map<u64, BlackHole>,
    queue: Seq<(u64, Option<i8>)>,
    ord: spec_fn(u64) -> int,
)
    requires
        patch_wf(holes, white, black),
        forall|i: int, j: int|
            0 <= i < j < queue.len() ==> ord(#[trigger] queue[i].0) <= ord(#[trigger] queue[j].0),
        forall|i: int, h: u64|
            0 <= i < queue.len() && #[trigger] input_of(holes, white, queue[i].0, h) ==> ord(
                white[h].bh_parent,
            ) < ord(queue[i].0),
    ensures
        frame_after(white, black, holes, queue).dom() == white.dom(),
        forall|i: int, h: u64|
            0 <= i < queue.len() && #[trigger] input_of(holes, white, queue[i].0, h)
                ==> !frame_after(white, black, holes, queue)[h].open,
    decreases queue.len(),
{
    if queue.len() > 0 {
        let p = queue.drop_last();
        let n = queue.len() - 1;
        assert forall|i: int, j: int| 0 <= i < j < p.len() implies ord(#[trigger] p[i].0) <= ord(
            #[trigger] p[j].0,
        ) by {
            assert(p[i] == queue[i] && p[j] == queue[j]);
        }
        assert forall|i: int, h: u64|
            0 <= i < p.len() && #[trigger] input_of(holes, white, p[i].0, h) implies ord(
                white[h].bh_parent,
            ) < ord(p[i].0) by {
            assert(p[i] == queue[i]);
        }
        lemma_frame_consumes_inputs(holes, white, black, p, ord);
        let w = frame_after(white, black, holes, p);
        let c = queue[n].0;
        assert(queue.last() == queue[n]);
        if holes.contains_key(c) {
            let hs = holes[c]@;
            let mid = match queue.last().1 {
                Some(l) => readers_opened(w, black, hs, l),
                None => w,
            };
            assert(mid.dom() =~= w.dom());
            assert(frame_after(white, black, holes, queue).dom() =~= white.dom());
            assert forall|i: int, h: u64|
                0 <= i < queue.len() && #[trigger] input_of(holes, white, queue[i].0, h)
                    implies !frame_after(white, black, holes, queue)[h].open by {
                if !hs.contains(h) {
                    assert(i < n) by {
                        if i == n {
                            assert(holes[queue[i].0]@.contains(h));
                        }
                    }
                    assert(p[i] == queue[i]);
                    assert(input_of(holes, white, p[i].0, h));
                    assert(!fed_by(black, hs, h)) by {
                        if fed_by(black, hs, h) {
                            let j = choose|j: int|
                                0 <= j < hs.len() && black.contains_key(hs[j]) && #[trigger] black[hs[j]].wh
                                    == h;
                            let b = hs[j];
                            assert(holes[c]@[j] == b);
                            assert(!white.contains_key(b));
                            assert(source_of(white, black, b) == c);
                            assert(white[h].bh_parent == c);
                            assert(ord(queue[i].0) <= ord(queue[n].0));
                        }
                    }
                }
            }
        } else {
            assert forall|i: int, h: u64|
                0 <= i < queue.len() && #[trigger] input_of(holes, white, queue[i].0, h)
                    implies !frame_after(white, black, holes, queue)[h].open by {
                assert(i < n) by {
                    if i == n {
                        assert(!holes.contains_key(queue[i].0));
                    }
                }
                assert(p[i] == queue[i]);
                assert(input_of(holes, white, p[i].0, h));
            }
        }
    }
}

impl Patch {
    /// The ids of the circles, each once.
    pub fn circle_ids(&self) -> (ids: Vec<u64>)
        ensures
            ids@.to_set() == self.holes@.dom(),
            ids@.no_duplicates(),
    {
        let mut ids: Vec<u64> = Vec::new();
        let ghost all = vstd::std_specs::hash::spec_keys_iter(&self.holes).remaining().unref();
        for k in it: self.holes.keys()
            invariant
                it.seq().unref() == all,
                all.to_set() == self.holes@.dom(),
                all.no_duplicates(),
                ids@ == all.take(it.index() as int),
            ensures
                ids@ == all,
        {
            ids.push(*k);
            proof {
                assert(all[it.index() as int] == *k);
                assert(all.take(it.index() + 1) =~= all.take(it.index() as int).push(*k));
            }
        }
        ids
    }
}

/// The circle a connection starts from: the parent of its black hole, as
/// recorded on the white hole that reads from it.
pub open spec fn source_of(white: Map<u64, WhiteHole>, black: Map<u64, BlackHole>, b: u64) -> u64 {
    white[black[b].wh].bh_parent
}

/// The connections of a patch hang together: ids name one thing each; every
/// black hole has its white hole and the white hole points back; both ends
/// sit on two different existing circles, and each circle lists exactly the
/// holes that sit on it.
pub open spec fn patch_wf(
    holes: Map<u64, Vec<u64>>,
    white: Map<u64, WhiteHole>,
    black: Map<u64, BlackHole>,
) -> bool {
    &&& forall|k: u64| #[trigger]
        white.contains_key(k) ==> !black.contains_key(k) && !holes.contains_key(k)
    &&& forall|k: u64| #[trigger] black.contains_key(k) ==> !holes.contains_key(k)
    &&& forall|b: u64| #[trigger]
        black.contains_key(b) ==> {
            let w = black[b].wh;
            &&& white.contains_key(w)
            &&& white[w].bh == b
            &&& holes.contains_key(white[w].bh_parent)
            &&& holes.contains_key(black[b].wh_parent)
            &&& white[w].bh_parent != black[b].wh_parent
            &&& holes[white[w].bh_parent]@.contains(b)
            &&& holes[black[b].wh_parent]@.contains(w)
        }
    &&& forall|w: u64| #[trigger]
        white.contains_key(w) ==> black.contains_key(white[w].bh) && black[white[w].bh].wh == w
    &&& forall|c: u64, i: int|
        holes.contains_key(c) && 0 <= i < holes[c]@.len() ==> {
            let h = #[trigger] holes[c]@[i];
            ||| black.contains_key(h) && source_of(white, black, h) == c
            ||| white.contains_key(h) && black[white[h].bh].wh_parent == c
        }
}

impl Patch {
    /// The connections of the patch hang together (see `patch_wf`).
    pub open spec fn wf(&self) -> bool {
        patch_wf(self.holes@, self.white@, self.black@)
    }

    /// Adds circle `c`, with no holes yet.
    pub fn add_circle(&mut self, c: u64)
        requires
            old(self).wf(),
            !old(self).holes@.contains_key(c),
            !old(self).white@.contains_key(c),
            !old(self).black@.contains_key(c),
        ensures
            final(self).wf(),
            final(self).holes@.dom() == old(self).holes@.dom().insert(c),
            final(self).holes@[c]@ == Seq::<u64>::empty(),
            forall|k: u64| #[trigger]
                old(self).holes@.contains_key(k) ==> final(self).holes@[k] == old(self).holes@[k],
            final(self).white@ == old(self).white@,
            final(self).black@ == old(self).black@,
    {
        self.holes.insert(c, Vec::new());
        proof {
            let h = self.holes@;
            assert forall|cc: u64, i: int|
                h.contains_key(cc) && 0 <= i < h[cc]@.len() implies {
                let x = #[trigger] h[cc]@[i];
                ||| self.black@.contains_key(x) && source_of(self.white@, self.black@, x) == cc
                ||| self.white@.contains_key(x) && self.black@[self.white@[x].bh].wh_parent == cc
            } by {
                assert(cc != c);
                assert(h[cc] == old(self).holes@[cc]);
            }
        }
    }

    /// Connects circle `src` to circle `snk`: black hole `b` goes on the
    /// source, white hole `w` (reading `lt`, open) on the sink.
    pub fn connect(&mut self, src: u64, snk: u64, b: u64, w: u64, lt: (i8, i8))
        requires
            old(self).wf(),
            src != snk,
            b != w,
            old(self).holes@.contains_key(src),
            old(self).holes@.contains_key(snk),
            !old(self).holes@.contains_key(b),
            !old(self).white@.contains_key(b),
            !old(self).black@.contains_key(b),
            !old(self).holes@.contains_key(w),
            !old(self).white@.contains_key(w),
            !old(self).black@.contains_key(w),
        ensures
            final(self).wf(),
            final(self).black@ == old(self).black@.insert(b, BlackHole { wh: w, wh_parent: snk }),
            final(self).white@ == old(self).white@.insert(
                w,
                WhiteHole { bh: b, bh_parent: src, link_types: lt, open: true },
            ),
            final(self).holes@.dom() == old(self).holes@.dom(),
            final(self).holes@[src]@ == old(self).holes@[src]@.push(b),
            final(self).holes@[snk]@ == old(self).holes@[snk]@.push(w),
            forall|k: u64| #[trigger]
                final(self).holes@.contains_key(k) && k != src && k != snk ==> final(self).holes@[k]
                    == old(self).holes@[k],
    {
        self.black.insert(b, BlackHole { wh: w, wh_parent: snk });
        self.white.insert(w, WhiteHole { bh: b, bh_parent: src, link_types: lt, open: true });
        let mut from = self.holes.remove(&src).unwrap();
        from.push(b);
        self.holes.insert(src, from);
        let mut to = self.holes.remove(&snk).unwrap();
        to.push(w);
        self.holes.insert(snk, to);
        proof {
            let (h, wm, bm) = (self.holes@, self.white@, self.black@);
            let oh = old(self).holes@;
            assert(h.dom() =~= oh.dom());
            assert forall|k: u64| #[trigger] h.contains_key(k) implies (k == src ==> h[k]@
                == oh[k]@.push(b)) && (k == snk ==> h[k]@ == oh[k]@.push(w)) && (k != src && k
                != snk ==> h[k] == oh[k]) by {}
            assert forall|bb: u64| #[trigger] bm.contains_key(bb) implies {
                let ww = bm[bb].wh;
                &&& wm.contains_key(ww)
                &&& wm[ww].bh == bb
                &&& h.contains_key(wm[ww].bh_parent)
                &&& h.contains_key(bm[bb].wh_parent)
                &&& wm[ww].bh_parent != bm[bb].wh_parent
                &&& h[wm[ww].bh_parent]@.contains(bb)
                &&& h[bm[bb].wh_parent]@.contains(ww)
            } by {
                if bb == b {
                    assert(h[src]@[h[src]@.len() - 1] == b);
                    assert(h[snk]@[h[snk]@.len() - 1] == w);
                } else {
                    let ww = bm[bb].wh;
                    assert(ww != w);
                    let p = wm[ww].bh_parent;
                    let q = bm[bb].wh_parent;
                    let ip = choose|i: int| 0 <= i < oh[p]@.len() && oh[p]@[i] == bb;
                    assert(h[p]@[ip] == bb);
                    let iq = choose|i: int| 0 <= i < oh[q]@.len() && oh[q]@[i] == ww;
                    assert(h[q]@[iq] == ww);
                }
            }
            assert forall|cc: u64, i: int| h.contains_key(cc) && 0 <= i < h[cc]@.len() implies {
                let x = #[trigger] h[cc]@[i];
                ||| bm.contains_key(x) && source_of(wm, bm, x) == cc
                ||| wm.contains_key(x) && bm[wm[x].bh].wh_parent == cc
            } by {
                let x = h[cc]@[i];
                if i < oh[cc]@.len() {
                    assert(x == oh[cc]@[i]);
                    if old(self).black@.contains_key(x) {
                        assert(x != b);
                        assert(old(self).black@[x].wh != w);
                    } else {
                        assert(x != w);
                        assert(old(self).white@[x].bh != b);
                    }
                }
            }
        }
    }
}

// ---------------------------------------------------------------------------
// deleting a selection
// ---------------------------------------------------------------------------

/// Whether removing the id `e` takes away the connection of black hole `b`:
/// `e` is one of its two holes or one of the two circles it joins.
pub open spec fn touches(white: Map<u64, WhiteHole>, black: Map<u64, BlackHole>, e: u64, b: u64) -> bool {
    e == b || e == black[b].wh || e == source_of(white, black, b) || e == black[b].wh_parent
}

/// Whether deleting the selection `sel` takes away the connection of black
/// hole `b`.
pub open spec fn doomed(
    white: Map<u64, WhiteHole>,
    black: Map<u64, BlackHole>,
    sel: Seq<u64>,
    b: u64,
) -> bool {
    black.contains_key(b) && exists|j: int| 0 <= j < sel.len() && #[trigger] touches(white, black, sel[j], b)
}

/// Whether hole `h` outlives the deletion of `sel`: it belongs to no
/// connection that the deletion takes away.
pub open spec fn survives(
    white: Map<u64, WhiteHole>,
    black: Map<u64, BlackHole>,
    sel: Seq<u64>,
    h: u64,
) -> bool {
    &&& !(black.contains_key(h) && doomed(white, black, sel, h))
    &&& !(white.contains_key(h) && doomed(white, black, sel, white[h].bh))
}

/// The holes of `s` that outlive the deletion of `sel`, in order.
pub open spec fn surviving(
    white: Map<u64, WhiteHole>,
    black: Map<u64, BlackHole>,
    sel: Seq<u64>,
    s: Seq<u64>,
) -> Seq<u64>
    decreases s.len(),
{
    if s.len() == 0 {
        Seq::empty()
    } else {
        let rest = surviving(white, black, sel, s.drop_last());
        if survives(white, black, sel, s.last()) {
            rest.push(s.last())
        } else {
            rest
        }
    }
}

/// The black holes left after deleting `sel`.
pub open spec fn black_after(
    white: Map<u64, WhiteHole>,
    black: Map<u64, BlackHole>,
    sel: Seq<u64>,
) -> Map<u64, BlackHole> {
    Map::new(|b: u64| black.contains_key(b) && !doomed(white, black, sel, b), |b: u64| black[b])
}

/// The white holes left after deleting `sel`.
pub open spec fn white_after(
    white: Map<u64, WhiteHole>,
    black: Map<u64, BlackHole>,
    sel: Seq<u64>,
) -> Map<u64, WhiteHole> {
    Map::new(
        |w: u64| white.contains_key(w) && !doomed(white, black, sel, white[w].bh),
        |w: u64| white[w],
    )
}

/// Whether a first component of `v` is `b`.
pub open spec fn has_first(v: Seq<(u64, u64)>, b: u64) -> bool {
    exists|i: int| 0 <= i < v.len() && #[trigger] v[i].0 == b
}

/// Whether a second component of `v` is `w`.
pub open spec fn has_second(v: Seq<(u64, u64)>, w: u64) -> bool {
    exists|i: int| 0 <= i < v.len() && #[trigger] v[i].1 == w
}

/// No two entries of `v` have the same first component.
pub open spec fn distinct_firsts(v: Seq<(u64, u64)>) -> bool {
    forall|i: int, j: int| 0 <= i < j < v.len() ==> #[trigger] v[i].0 != #[trigger] v[j].0
}

/// What a deletion took away, for the caller to despawn: the circles, the
/// connections as (black hole, white hole), and the remaining circles that
/// lost an input.
pub struct Deletion {
    pub circles: Vec<u64>,
    pub connections: Vec<(u64, u64)>,
    pub lost: Vec<u64>,
}

proof fn lemma_surviving(
    white: Map<u64, WhiteHole>,
    black: Map<u64, BlackHole>,
    sel: Seq<u64>,
    s: Seq<u64>,
)
    ensures
        forall|x: u64| #[trigger]
            surviving(white, black, sel, s).contains(x) <==> (s.contains(x) && survives(
                white,
                black,
                sel,
                x,
            )),
    decreases s.len(),
{
    if s.len() > 0 {
        let p = s.drop_last();
        lemma_surviving(white, black, sel, p);
        assert forall|x: u64| #[trigger]
            surviving(white, black, sel, s).contains(x) <==> (s.contains(x) && survives(
                white,
                black,
                sel,
                x,
            )) by {
            let r = surviving(white, black, sel, p);
            if surviving(white, black, sel, s).contains(x) {
                let k = choose|k: int|
                    0 <= k < surviving(white, black, sel, s).len() && surviving(
                        white,
                        black,
                        sel,
                        s,
                    )[k] == x;
                if k < r.len() {
                    assert(r[k] == x);
                    assert(r.contains(x));
                    let j = choose|j: int| 0 <= j < p.len() && p[j] == x;
                    assert(s[j] == x);
                } else {
                    assert(s[s.len() - 1] == x);
                }
            }
            if s.contains(x) && survives(white, black, sel, x) {
                let j = choose|j: int| 0 <= j < s.len() && s[j] == x;
                if j < s.len() - 1 {
                    assert(p[j] == x);
                    assert(r.contains(x));
                    let k = choose|k: int| 0 <= k < r.len() && r[k] == x;
                    assert(surviving(white, black, sel, s)[k] == x);
                } else {
                    assert(surviving(white, black, sel, s)[r.len() as int] == x);
                }
            }
        }
    }
}

impl Patch {
    fn index_of_first(v: &Vec<(u64, u64)>, b: u64) -> (r: bool)
        ensures
            r == has_first(v@, b),
    {
        let mut i: usize = 0;
        while i < v.len()
            invariant
                i <= v.len(),
                forall|k: int| 0 <= k < i ==> v@[k].0 != b,
            decreases v.len() - i,
        {
            if v[i].0 == b {
                return true;
            }
            i += 1;
        }
        false
    }

    fn contains_id(v: &Vec<u64>, x: u64) -> (r: bool)
        ensures
            r == v@.contains(x),
    {
        let mut i: usize = 0;
        while i < v.len()
            invariant
                i <= v.len(),
                forall|k: int| 0 <= k < i ==> v@[k] != x,
            decreases v.len() - i,
        {
            if v[i] == x {
                return true;
            }
            i += 1;
        }
        false
    }
}

impl Patch {
    /// Records the connection of black hole `b` (with white hole `w`) unless
    /// it is there already.
    fn mark(conns: &mut Vec<(u64, u64)>, b: u64, w: u64)
        ensures
            forall|x: u64| #[trigger]
                has_first(final(conns)@, x) <==> (has_first(old(conns)@, x) || x == b),
            forall|i: int|
                0 <= i < final(conns)@.len() ==> (#[trigger] final(conns)@[i] == (b, w) || (exists|
                    k: int,
                | 0 <= k < old(conns)@.len() && old(conns)@[k] == final(conns)@[i])),
            distinct_firsts(old(conns)@) ==> distinct_firsts(final(conns)@),
    {
        if !Self::index_of_first(conns, b) {
            conns.push((b, w));
            proof {
                assert forall|x: u64| #[trigger]
                    has_first(conns@, x) <==> (has_first(old(conns)@, x) || x == b) by {
                    if has_first(old(conns)@, x) {
                        let i = choose|i: int| 0 <= i < old(conns)@.len() && #[trigger] old(conns)@[i].0 == x;
                        assert(conns@[i].0 == x);
                    }
                    if x == b {
                        assert(conns@[conns@.len() - 1].0 == x);
                    }
                    if has_first(conns@, x) {
                        let i = choose|i: int| 0 <= i < conns@.len() && #[trigger] conns@[i].0 == x;
                        if i < old(conns)@.len() {
                            assert(old(conns)@[i].0 == x);
                        }
                    }
                }
                assert forall|i: int| 0 <= i < conns@.len() implies (#[trigger] conns@[i] == (b, w) || (exists|
                    k: int,
                | 0 <= k < old(conns)@.len() && old(conns)@[k] == conns@[i])) by {
                    if i < old(conns)@.len() {
                        assert(old(conns)@[i] == conns@[i]);
                    }
                }
                if distinct_firsts(old(conns)@) {
                    assert forall|i: int, j: int| 0 <= i < j < conns@.len() implies #[trigger] conns@[i].0
                        != #[trigger] conns@[j].0 by {
                        assert(conns@[i] == old(conns)@[i]);
                        if j < old(conns)@.len() {
                            assert(conns@[j] == old(conns)@[j]);
                        } else {
                            assert(!has_first(old(conns)@, b));
                        }
                    }
                }
            }
        } else {
            proof {
                assert forall|i: int| 0 <= i < conns@.len() implies (#[trigger] conns@[i] == (b, w) || (exists|
                    k: int,
                | 0 <= k < old(conns)@.len() && old(conns)@[k] == conns@[i])) by {
                    assert(old(conns)@[i] == conns@[i]);
                }
            }
        }
    }
}

proof fn lemma_doomed_step(
    white: Map<u64, WhiteHole>,
    black: Map<u64, BlackHole>,
    sel: Seq<u64>,
    j: int,
    b: u64,
)
    requires
        0 <= j < sel.len(),
    ensures
        doomed(white, black, sel.take(j + 1), b) == (doomed(white, black, sel.take(j), b) || (
        black.contains_key(b) && touches(white, black, sel[j], b))),
{
    let pre = sel.take(j);
    let post = sel.take(j + 1);
    if doomed(white, black, post, b) {
        let k = choose|k: int| 0 <= k < post.len() && #[trigger] touches(white, black, post[k], b);
        if k < j {
            assert(pre[k] == post[k]);
        } else {
            assert(post[k] == sel[j]);
        }
    }
    if doomed(white, black, pre, b) {
        let k = choose|k: int| 0 <= k < pre.len() && #[trigger] touches(white, black, pre[k], b);
        assert(pre[k] == post[k]);
    }
    if black.contains_key(b) && touches(white, black, sel[j], b) {
        assert(post[j] == sel[j]);
    }
}

proof fn lemma_circle_touches(
    holes: Map<u64, Vec<u64>>,
    white: Map<u64, WhiteHole>,
    black: Map<u64, BlackHole>,
    e: u64,
    b: u64,
)
    requires
        patch_wf(holes, white, black),
        holes.contains_key(e),
        black.contains_key(b),
    ensures
        (exists|k: int|
            0 <= k < holes[e]@.len() && (#[trigger] holes[e]@[k] == b || holes[e]@[k]
                == black[b].wh)) == touches(white, black, e, b),
{
    let list = holes[e]@;
    let w = black[b].wh;
    assert(white.contains_key(w));
    if exists|k: int| 0 <= k < list.len() && (#[trigger] list[k] == b || list[k] == w) {
        let k = choose|k: int| 0 <= k < list.len() && (#[trigger] list[k] == b || list[k] == w);
        let h = list[k];
        assert(holes[e]@[k] == h);
        if h == b {
            assert(!white.contains_key(b));
        } else {
            assert(!black.contains_key(w));
            assert(white[w].bh == b);
        }
    }
    if touches(white, black, e, b) {
        assert(e != b);
        assert(e != w);
        if e == source_of(white, black, b) {
            assert(holes[e]@.contains(b));
            let k = choose|k: int| 0 <= k < list.len() && list[k] == b;
            assert(holes[e]@[k] == b);
        } else {
            assert(holes[e]@.contains(w));
            let k = choose|k: int| 0 <= k < list.len() && list[k] == w;
            assert(holes[e]@[k] == w);
        }
    }
}

impl Patch {
    /// The connections that deleting `sel` takes away, as (black hole, white
    /// hole), each once.
    fn doomed_connections(&self, sel: &Vec<u64>) -> (conns: Vec<(u64, u64)>)
        requires
            self.wf(),
        ensures
            forall|b: u64| #[trigger]
                has_first(conns@, b) <==> doomed(self.white@, self.black@, sel@, b),
            forall|i: int|
                0 <= i < conns@.len() ==> self.black@.contains_key(#[trigger] conns@[i].0)
                    && conns@[i].1 == self.black@[conns@[i].0].wh,
            distinct_firsts(conns@),
    {
        let mut conns: Vec<(u64, u64)> = Vec::new();
        let mut j: usize = 0;
        while j < sel.len()
            invariant
                self.wf(),
                j <= sel.len(),
                forall|b: u64| #[trigger]
                    has_first(conns@, b) <==> doomed(self.white@, self.black@, sel@.take(j as int), b),
                forall|i: int|
                    0 <= i < conns@.len() ==> self.black@.contains_key(#[trigger] conns@[i].0)
                        && conns@[i].1 == self.black@[conns@[i].0].wh,
                distinct_firsts(conns@),
            decreases sel.len() - j,
        {
            let e = sel[j];
            let ghost before = conns@;
            let ghost wm = self.white@;
            let ghost bm = self.black@;
            if self.holes.contains_key(&e) {
                let list = self.holes.get(&e).unwrap();
                let mut i: usize = 0;
                while i < list.len()
                    invariant
                        self.wf(),
                        wm == self.white@,
                        bm == self.black@,
                        self.holes@.contains_key(e),
                        list@ == self.holes@[e]@,
                        i <= list.len(),
                        forall|b: u64| #[trigger]
                            has_first(conns@, b) <==> (has_first(before, b) || (bm.contains_key(b)
                                && exists|k: int|
                                0 <= k < i && (#[trigger] list@[k] == b || list@[k] == bm[b].wh))),
                        forall|i: int|
                            0 <= i < conns@.len() ==> bm.contains_key(#[trigger] conns@[i].0)
                                && conns@[i].1 == bm[conns@[i].0].wh,
                        distinct_firsts(conns@),
                    decreases list.len() - i,
                {
                    let h = list[i];
                    let ghost mid = conns@;
                    if self.black.contains_key(&h) {
                        let w = self.black.get(&h).unwrap().wh;
                        Self::mark(&mut conns, h, w);
                    } else if self.white.contains_key(&h) {
                        let bb = self.white.get(&h).unwrap().bh;
                        let w = self.black.get(&bb).unwrap().wh;
                        Self::mark(&mut conns, bb, w);
                    }
                    proof {
                        assert forall|i2: int|
                            0 <= i2 < conns@.len() implies bm.contains_key(#[trigger] conns@[i2].0)
                            && conns@[i2].1 == bm[conns@[i2].0].wh by {
                            if conns@[i2] != (h, bm[h].wh) && (wm.contains_key(h) ==> conns@[i2]
                                != (wm[h].bh, bm[wm[h].bh].wh)) {
                                if conns@ != mid {
                                    let k = choose|k: int| 0 <= k < mid.len() && mid[k] == conns@[i2];
                                    assert(bm.contains_key(mid[k].0));
                                }
                            }
                        }
                        assert forall|b: u64| #[trigger]
                            has_first(conns@, b) <==> (has_first(before, b) || (bm.contains_key(b)
                                && exists|k: int|
                                0 <= k < i + 1 && (#[trigger] list@[k] == b || list@[k] == bm[b].wh))) by {
                            if bm.contains_key(b) {
                                if exists|k: int|
                                    0 <= k < i + 1 && (#[trigger] list@[k] == b || list@[k]
                                        == bm[b].wh) {
                                    let k = choose|k: int|
                                        0 <= k < i + 1 && (#[trigger] list@[k] == b || list@[k]
                                            == bm[b].wh);
                                    if k == i {
                                        if list@[k] == bm[b].wh {
                                            assert(wm.contains_key(bm[b].wh));
                                            assert(wm[bm[b].wh].bh == b);
                                            assert(!bm.contains_key(bm[b].wh));
                                        }
                                    }
                                }
                                if has_first(mid, b) || b == h || (wm.contains_key(h) && !bm.contains_key(h) && b == wm[h].bh) {
                                    if b == h && bm.contains_key(h) {
                                        assert(list@[i as int] == b);
                                    }
                                    if wm.contains_key(h) && !bm.contains_key(h) && b == wm[h].bh {
                                        assert(list@[i as int] == bm[b].wh);
                                    }
                                }
                            }
                        }
                    }
                    i += 1;
                }
                proof {
                    assert forall|b: u64| #[trigger]
                        has_first(conns@, b) <==> doomed(wm, bm, sel@.take(j + 1), b) by {
                        lemma_doomed_step(wm, bm, sel@, j as int, b);
                        if bm.contains_key(b) {
                            lemma_circle_touches(self.holes@, wm, bm, e, b);
                        }
                    }
                }
            } else if self.white.contains_key(&e) {
                let bb = self.white.get(&e).unwrap().bh;
                Self::mark(&mut conns, bb, e);
                proof {
                    assert forall|b: u64| #[trigger]
                        has_first(conns@, b) <==> doomed(wm, bm, sel@.take(j + 1), b) by {
                        lemma_doomed_step(wm, bm, sel@, j as int, b);
                        if bm.contains_key(b) && touches(wm, bm, e, b) {
                            assert(!bm.contains_key(e));
                            assert(bm[b].wh == e);
                            assert(wm[bm[b].wh].bh == b);
                        }
                        if b == bb {
                            assert(bm.contains_key(bb));
                            assert(bm[bb].wh == e);
                        }
                    }
                    assert forall|i2: int|
                        0 <= i2 < conns@.len() implies bm.contains_key(#[trigger] conns@[i2].0)
                        && conns@[i2].1 == bm[conns@[i2].0].wh by {
                        if conns@[i2] != (bb, e) {
                            let k = choose|k: int| 0 <= k < before.len() && before[k] == conns@[i2];
                            assert(bm.contains_key(before[k].0));
                        }
                    }
                }
            } else if self.black.contains_key(&e) {
                let w = self.black.get(&e).unwrap().wh;
                Self::mark(&mut conns, e, w);
                proof {
                    assert forall|b: u64| #[trigger]
                        has_first(conns@, b) <==> doomed(wm, bm, sel@.take(j + 1), b) by {
                        lemma_doomed_step(wm, bm, sel@, j as int, b);
                        if bm.contains_key(b) && touches(wm, bm, e, b) {
                            assert(wm.contains_key(bm[b].wh));
                            assert(!self.holes@.contains_key(e));
                        }
                    }
                    assert forall|i2: int|
                        0 <= i2 < conns@.len() implies bm.contains_key(#[trigger] conns@[i2].0)
                        && conns@[i2].1 == bm[conns@[i2].0].wh by {
                        if conns@[i2] != (e, w) {
                            let k = choose|k: int| 0 <= k < before.len() && before[k] == conns@[i2];
                            assert(bm.contains_key(before[k].0));
                        }
                    }
                }
            } else {
                proof {
                    assert forall|b: u64| #[trigger]
                        has_first(conns@, b) <==> doomed(wm, bm, sel@.take(j + 1), b) by {
                        lemma_doomed_step(wm, bm, sel@, j as int, b);
                        if bm.contains_key(b) {
                            assert(wm.contains_key(bm[b].wh));
                        }
                    }
                }
            }
            j += 1;
        }
        proof {
            assert(sel@.take(j as int) =~= sel@);
        }
        conns
    }
}

impl Patch {
    /// The holes of `list` that outlive the deletion whose doomed
    /// connections are `conns`, and whether a white hole was among those
    /// taken away.
    fn surviving_list(
        &self,
        list: &Vec<u64>,
        conns: &Vec<(u64, u64)>,
        Ghost(sel): Ghost<Seq<u64>>,
    ) -> (r: (Vec<u64>, bool))
        requires
            forall|b: u64| #[trigger] has_first(conns@, b) <==> doomed(self.white@, self.black@, sel, b),
        ensures
            r.0@ == surviving(self.white@, self.black@, sel, list@),
            r.1 == exists|k: int|
                0 <= k < list@.len() && self.white@.contains_key(#[trigger] list@[k]) && doomed(
                    self.white@,
                    self.black@,
                    sel,
                    self.white@[list@[k]].bh,
                ),
    {
        let ghost (wm, bm) = (self.white@, self.black@);
        let mut kept: Vec<u64> = Vec::new();
        let mut lost = false;
        let mut i: usize = 0;
        while i < list.len()
            invariant
                wm == self.white@,
                bm == self.black@,
                forall|b: u64| #[trigger] has_first(conns@, b) <==> doomed(wm, bm, sel, b),
                i <= list.len(),
                kept@ == surviving(wm, bm, sel, list@.take(i as int)),
                lost == exists|k: int|
                    0 <= k < i && wm.contains_key(#[trigger] list@[k]) && doomed(
                        wm,
                        bm,
                        sel,
                        wm[list@[k]].bh,
                    ),
            decreases list.len() - i,
        {
            let h = list[i];
            proof {
                assert(list@.take(i + 1).drop_last() =~= list@.take(i as int));
            }
            let mut keep = true;
            if self.black.contains_key(&h) {
                if Self::index_of_first(conns, h) {
                    keep = false;
                }
            }
            if self.white.contains_key(&h) {
                let bb = self.white.get(&h).unwrap().bh;
                if Self::index_of_first(conns, bb) {
                    keep = false;
                    lost = true;
                }
            }
            if keep {
                kept.push(h);
            }
            proof {
                assert(list@.take(i + 1).last() == h);
                let goal = exists|k: int|
                    0 <= k < i + 1 && wm.contains_key(#[trigger] list@[k]) && doomed(
                        wm,
                        bm,
                        sel,
                        wm[list@[k]].bh,
                    );
                if goal {
                    let k = choose|k: int|
                        0 <= k < i + 1 && wm.contains_key(#[trigger] list@[k]) && doomed(
                            wm,
                            bm,
                            sel,
                            wm[list@[k]].bh,
                        );
                    if k == i {
                        assert(has_first(conns@, wm[h].bh));
                    }
                }
            }
            i += 1;
        }
        proof {
            assert(list@.take(i as int) =~= list@);
        }
        (kept, lost)
    }
}

/// The circles that remain after deleting `sel`, each listing its
/// surviving holes.
pub open spec fn remaining_circles(
    holes: Map<u64, Vec<u64>>,
    white: Map<u64, WhiteHole>,
    black: Map<u64, BlackHole>,
    sel: Seq<u64>,
    new_holes: Map<u64, Vec<u64>>,
) -> bool {
    &&& forall|c: u64| #[trigger]
        new_holes.contains_key(c) <==> (holes.contains_key(c) && !sel.contains(c))
    &&& forall|c: u64| #[trigger]
        new_holes.contains_key(c) ==> new_holes[c]@ == surviving(white, black, sel, holes[c]@)
}

/// A black hole that survives a deletion still joins two remaining circles
/// that list its two ends.
#[verifier::spinoff_prover]
proof fn lemma_delete_black_ok(
    holes: Map<u64, Vec<u64>>,
    white: Map<u64, WhiteHole>,
    black: Map<u64, BlackHole>,
    sel: Seq<u64>,
    new_holes: Map<u64, Vec<u64>>,
    b: u64,
)
    requires
        patch_wf(holes, white, black),
        remaining_circles(holes, white, black, sel, new_holes),
        black_after(white, black, sel).contains_key(b),
    ensures
        ({
            let nw = white_after(white, black, sel);
            let nb = black_after(white, black, sel);
            let w = nb[b].wh;
            &&& nw.contains_key(w)
            &&& nw[w].bh == b
            &&& new_holes.contains_key(nw[w].bh_parent)
            &&& new_holes.contains_key(nb[b].wh_parent)
            &&& nw[w].bh_parent != nb[b].wh_parent
            &&& new_holes[nw[w].bh_parent]@.contains(b)
            &&& new_holes[nb[b].wh_parent]@.contains(w)
        }),
{
    let w = black[b].wh;
    let src = white[w].bh_parent;
    let snk = black[b].wh_parent;
    assert(black.contains_key(b));
    assert(white.contains_key(w) && white[w].bh == b);
    if sel.contains(src) {
        let j = choose|j: int| 0 <= j < sel.len() && sel[j] == src;
        assert(touches(white, black, sel[j], b));
    }
    if sel.contains(snk) {
        let j = choose|j: int| 0 <= j < sel.len() && sel[j] == snk;
        assert(touches(white, black, sel[j], b));
    }
    lemma_surviving(white, black, sel, holes[src]@);
    lemma_surviving(white, black, sel, holes[snk]@);
    assert(!white.contains_key(b));
    assert(!black.contains_key(w));
    assert(survives(white, black, sel, b));
    assert(survives(white, black, sel, w));
}

/// A hole listed by a remaining circle after a deletion still sits on it.
#[verifier::spinoff_prover]
proof fn lemma_delete_listed_ok(
    holes: Map<u64, Vec<u64>>,
    white: Map<u64, WhiteHole>,
    black: Map<u64, BlackHole>,
    sel: Seq<u64>,
    new_holes: Map<u64, Vec<u64>>,
    c: u64,
    i: int,
)
    requires
        patch_wf(holes, white, black),
        remaining_circles(holes, white, black, sel, new_holes),
        new_holes.contains_key(c),
        0 <= i < new_holes[c]@.len(),
    ensures
        ({
            let nw = white_after(white, black, sel);
            let nb = black_after(white, black, sel);
            let h = new_holes[c]@[i];
            ||| nb.contains_key(h) && source_of(nw, nb, h) == c
            ||| nw.contains_key(h) && nb[nw[h].bh].wh_parent == c
        }),
{
    let nw = white_after(white, black, sel);
    let h = new_holes[c]@[i];
    assert(holes.contains_key(c));
    lemma_surviving(white, black, sel, holes[c]@);
    assert(surviving(white, black, sel, holes[c]@).contains(h));
    let k = choose|k: int| 0 <= k < holes[c]@.len() && holes[c]@[k] == h;
    assert(holes[c]@[k] == h);
    if black.contains_key(h) {
        let w = black[h].wh;
        assert(white[w].bh == h);
        assert(nw.contains_key(w));
    } else {
        assert(white.contains_key(h));
    }
}

/// Deleting a selection leaves a patch that hangs together: the two holes of
/// a connection go together, a connection goes with either of its circles,
/// and the remaining circles list exactly their remaining holes.
pub proof fn lemma_delete_keeps_wf(
    holes: Map<u64, Vec<u64>>,
    white: Map<u64, WhiteHole>,
    black: Map<u64, BlackHole>,
    sel: Seq<u64>,
    new_holes: Map<u64, Vec<u64>>,
)
    requires
        patch_wf(holes, white, black),
        forall|c: u64| #[trigger]
            new_holes.contains_key(c) <==> (holes.contains_key(c) && !sel.contains(c)),
        forall|c: u64| #[trigger]
            new_holes.contains_key(c) ==> new_holes[c]@ == surviving(white, black, sel, holes[c]@),
    ensures
        patch_wf(new_holes, white_after(white, black, sel), black_after(white, black, sel)),
{
    let nw = white_after(white, black, sel);
    let nb = black_after(white, black, sel);
    assert(remaining_circles(holes, white, black, sel, new_holes));
    assert forall|b: u64| #[trigger] nb.contains_key(b) implies {
        let w = nb[b].wh;
        &&& nw.contains_key(w)
        &&& nw[w].bh == b
        &&& new_holes.contains_key(nw[w].bh_parent)
        &&& new_holes.contains_key(nb[b].wh_parent)
        &&& nw[w].bh_parent != nb[b].wh_parent
        &&& new_holes[nw[w].bh_parent]@.contains(b)
        &&& new_holes[nb[b].wh_parent]@.contains(w)
    } by {
        lemma_delete_black_ok(holes, white, black, sel, new_holes, b);
    }
    assert forall|w: u64| #[trigger] nw.contains_key(w) implies nb.contains_key(nw[w].bh)
        && nb[nw[w].bh].wh == w by {}
    assert forall|c: u64, i: int| new_holes.contains_key(c) && 0 <= i < new_holes[c]@.len() implies {
        let h = #[trigger] new_holes[c]@[i];
        ||| nb.contains_key(h) && source_of(nw, nb, h) == c
        ||| nw.contains_key(h) && nb[nw[h].bh].wh_parent == c
    } by {
        lemma_delete_listed_ok(holes, white, black, sel, new_holes, c, i);
    }
    assert forall|k: u64| #[trigger] nw.contains_key(k) implies !nb.contains_key(k)
        && !new_holes.contains_key(k) by {}
    assert forall|k: u64| #[trigger] nb.contains_key(k) implies !new_holes.contains_key(k) by {}
}

proof fn lemma_lost_input(
    holes: Map<u64, Vec<u64>>,
    white: Map<u64, WhiteHole>,
    black: Map<u64, BlackHole>,
    sel: Seq<u64>,
    c: u64,
)
    requires
        patch_wf(holes, white, black),
        holes.contains_key(c),
    ensures
        (exists|k: int|
            0 <= k < holes[c]@.len() && white.contains_key(#[trigger] holes[c]@[k]) && doomed(
                white,
                black,
                sel,
                white[holes[c]@[k]].bh,
            )) == (exists|b: u64| #[trigger] doomed(white, black, sel, b) && black[b].wh_parent == c),
{
    let list = holes[c]@;
    if exists|k: int|
        0 <= k < list.len() && white.contains_key(#[trigger] list[k]) && doomed(
            white,
            black,
            sel,
            white[list[k]].bh,
        ) {
        let k = choose|k: int|
            0 <= k < list.len() && white.contains_key(#[trigger] list[k]) && doomed(
                white,
                black,
                sel,
                white[list[k]].bh,
            );
        assert(holes[c]@[k] == list[k]);
        let b = white[list[k]].bh;
        assert(!black.contains_key(list[k]));
        assert(doomed(white, black, sel, b) && black[b].wh_parent == c);
    }
    if exists|b: u64| #[trigger] doomed(white, black, sel, b) && black[b].wh_parent == c {
        let b = choose|b: u64| #[trigger] doomed(white, black, sel, b) && black[b].wh_parent == c;
        let w = black[b].wh;
        assert(holes[c]@.contains(w));
        let k = choose|k: int| 0 <= k < list.len() && list[k] == w;
        assert(white.contains_key(list[k]) && white[list[k]].bh == b);
    }
}

impl Patch {
    /// Deletes the selection `sel` (circles and holes, by id): a selected
    /// circle goes with all its connections, a selected hole with its
    /// connection. Returns what went, and the remaining circles that lost an
    /// input.
    pub fn delete_selected(&mut self, sel: &Vec<u64>) -> (d: Deletion)
        requires
            old(self).wf(),
        ensures
            final(self).wf(),
            final(self).black@ == black_after(old(self).white@, old(self).black@, sel@),
            final(self).white@ == white_after(old(self).white@, old(self).black@, sel@),
            forall|c: u64| #[trigger]
                final(self).holes@.contains_key(c) <==> (old(self).holes@.contains_key(c)
                    && !sel@.contains(c)),
            forall|c: u64| #[trigger]
                final(self).holes@.contains_key(c) ==> final(self).holes@[c]@ == surviving(
                    old(self).white@,
                    old(self).black@,
                    sel@,
                    old(self).holes@[c]@,
                ),
            forall|c: u64| #[trigger]
                d.circles@.contains(c) <==> (old(self).holes@.contains_key(c) && sel@.contains(c)),
            d.circles@.no_duplicates(),
            d.connections@.no_duplicates(),
            d.lost@.no_duplicates(),
            forall|b: u64, w: u64| #[trigger]
                d.connections@.contains((b, w)) <==> (doomed(old(self).white@, old(self).black@, sel@, b)
                    && w == old(self).black@[b].wh),
            forall|c: u64| #[trigger]
                d.lost@.contains(c) <==> (final(self).holes@.contains_key(c) && exists|b: u64| #[trigger]
                    doomed(old(self).white@, old(self).black@, sel@, b) && old(self).black@[b].wh_parent
                        == c),
    {
        let ghost (hm, wm, bm) = (self.holes@, self.white@, self.black@);
        let conns = self.doomed_connections(sel);
        let ids = self.circle_ids();
        let mut new_holes: HashMap<u64, Vec<u64>> = HashMap::new();
        let mut circles: Vec<u64> = Vec::new();
        let mut lost: Vec<u64> = Vec::new();
        let mut k: usize = 0;
        while k < ids.len()
            invariant
                self.wf(),
                hm == self.holes@,
                wm == self.white@,
                bm == self.black@,
                ids@.to_set() == hm.dom(),
                k <= ids.len(),
                forall|b: u64| #[trigger] has_first(conns@, b) <==> doomed(wm, bm, sel@, b),
                forall|c: u64| #[trigger]
                    new_holes@.contains_key(c) <==> (ids@.take(k as int).contains(c) && !sel@.contains(c)),
                forall|c: u64| #[trigger]
                    new_holes@.contains_key(c) ==> new_holes@[c]@ == surviving(wm, bm, sel@, hm[c]@),
                forall|c: u64| #[trigger]
                    circles@.contains(c) <==> (ids@.take(k as int).contains(c) && sel@.contains(c)),
                ids@.no_duplicates(),
                circles@.no_duplicates(),
                lost@.no_duplicates(),
                forall|c: u64| #[trigger]
                    lost@.contains(c) <==> (ids@.take(k as int).contains(c) && !sel@.contains(c) && exists|
                        b: u64,
                    | #[trigger] doomed(wm, bm, sel@, b) && bm[b].wh_parent == c),
            decreases ids.len() - k,
        {
            let c = ids[k];
            let ghost pre = ids@.take(k as int);
            let ghost post = ids@.take(k + 1);
            proof {
                assert(post =~= pre.push(c));
                assert forall|x: u64| #[trigger] post.contains(x) == (pre.contains(x) || x == c) by {
                    if pre.contains(x) {
                        let j = choose|j: int| 0 <= j < pre.len() && pre[j] == x;
                        assert(post[j] == x);
                    }
                    if x == c {
                        assert(post[k as int] == x);
                    }
                }
                assert(ids@.contains(c));
                assert(ids@.to_set().contains(c));
            }
            let ghost old_circles = circles@;
            let ghost old_lost = lost@;
            proof {
                assert(!pre.contains(c)) by {
                    if pre.contains(c) {
                        let j = choose|j: int| 0 <= j < pre.len() && pre[j] == c;
                        assert(ids@[j] == ids@[k as int]);
                    }
                }
            }
            if Self::contains_id(sel, c) {
                circles.push(c);
                proof {
                    assert forall|a: int, b: int|
                        0 <= a < circles@.len() && 0 <= b < circles@.len() && a != b implies circles@[a]
                        != circles@[b] by {
                        if a == circles@.len() - 1 {
                            assert(old_circles.contains(circles@[b]));
                        } else if b == circles@.len() - 1 {
                            assert(old_circles.contains(circles@[a]));
                        } else {
                            assert(old_circles[a] == circles@[a] && old_circles[b] == circles@[b]);
                        }
                    }
                    assert forall|x: u64| #[trigger] circles@.contains(x) <==> (post.contains(x) && sel@.contains(x)) by {
                        if circles@.contains(x) && x != c {
                            let j = choose|j: int| 0 <= j < circles@.len() && circles@[j] == x;
                            assert(j < circles@.len() - 1);
                            assert(old_circles[j] == x);
                            assert(old_circles.contains(x));
                        }
                        if post.contains(x) && sel@.contains(x) {
                            if x == c {
                                assert(circles@[circles@.len() - 1] == x);
                            } else {
                                assert(old_circles.contains(x));
                                let j = choose|j: int| 0 <= j < old_circles.len() && old_circles[j] == x;
                                assert(circles@[j] == x);
                            }
                        }
                    }
                }
            } else {
                let list = self.holes.get(&c).unwrap();
                let (kept, l) = self.surviving_list(list, &conns, Ghost(sel@));
                new_holes.insert(c, kept);
                if l {
                    lost.push(c);
                }
                proof {
                    if l {
                        assert forall|a: int, b: int|
                            0 <= a < lost@.len() && 0 <= b < lost@.len() && a != b implies lost@[a]
                            != lost@[b] by {
                            if a == lost@.len() - 1 {
                                assert(old_lost.contains(lost@[b]));
                            } else if b == lost@.len() - 1 {
                                assert(old_lost.contains(lost@[a]));
                            } else {
                                assert(old_lost[a] == lost@[a] && old_lost[b] == lost@[b]);
                            }
                        }
                    }
                    lemma_lost_input(hm, wm, bm, sel@, c);
                    assert forall|x: u64| #[trigger] lost@.contains(x) <==> (post.contains(x)
                        && !sel@.contains(x) && exists|b: u64| #[trigger]
                        doomed(wm, bm, sel@, b) && bm[b].wh_parent == x) by {
                        if l {
                            if lost@.contains(x) && x != c {
                                let j = choose|j: int| 0 <= j < lost@.len() && lost@[j] == x;
                                assert(old_lost[j] == x);
                                assert(old_lost.contains(x));
                            }
                            if post.contains(x) && !sel@.contains(x) && exists|b: u64| #[trigger]
                                doomed(wm, bm, sel@, b) && bm[b].wh_parent == x {
                                if x == c {
                                    assert(lost@[lost@.len() - 1] == x);
                                } else {
                                    assert(old_lost.contains(x));
                                    let j = choose|j: int| 0 <= j < old_lost.len() && old_lost[j] == x;
                                    assert(lost@[j] == x);
                                }
                            }
                        }
                    }
                }
            }
            k += 1;
        }
        proof {
            assert(ids@.take(k as int) =~= ids@);
            assert forall|c: u64| ids@.contains(c) <==> hm.contains_key(c) by {
                assert(ids@.to_set().contains(c) == ids@.contains(c));
            }
        }
        let mut t: usize = 0;
        while t < conns.len()
            invariant
                t <= conns.len(),
                forall|x: u64| #[trigger]
                    self.black@.contains_key(x) <==> (bm.contains_key(x) && !has_first(conns@.take(t as int), x)),
                forall|x: u64| #[trigger] self.black@.contains_key(x) ==> self.black@[x] == bm[x],
                forall|x: u64| #[trigger]
                    self.white@.contains_key(x) <==> (wm.contains_key(x) && !has_second(conns@.take(t as int), x)),
                forall|x: u64| #[trigger] self.white@.contains_key(x) ==> self.white@[x] == wm[x],
            decreases conns.len() - t,
        {
            let (b, w) = conns[t];
            self.black.remove(&b);
            self.white.remove(&w);
            proof {
                let pre = conns@.take(t as int);
                let post = conns@.take(t + 1);
                assert forall|x: u64| #[trigger] has_first(post, x) == (has_first(pre, x) || x == b) by {
                    if has_first(pre, x) {
                        let i = choose|i: int| 0 <= i < pre.len() && #[trigger] pre[i].0 == x;
                        assert(post[i].0 == x);
                    }
                    if x == b {
                        assert(post[t as int].0 == x);
                    }
                    if has_first(post, x) {
                        let i = choose|i: int| 0 <= i < post.len() && #[trigger] post[i].0 == x;
                        if i < t {
                            assert(pre[i].0 == x);
                        }
                    }
                }
                assert forall|x: u64| #[trigger] has_second(post, x) == (has_second(pre, x) || x == w) by {
                    if has_second(pre, x) {
                        let i = choose|i: int| 0 <= i < pre.len() && #[trigger] pre[i].1 == x;
                        assert(post[i].1 == x);
                    }
                    if x == w {
                        assert(post[t as int].1 == x);
                    }
                    if has_second(post, x) {
                        let i = choose|i: int| 0 <= i < post.len() && #[trigger] post[i].1 == x;
                        if i < t {
                            assert(pre[i].1 == x);
                        }
                    }
                }
            }
            t += 1;
        }
        proof {
            assert(conns@.take(t as int) =~= conns@);
            assert(self.black@ =~= black_after(wm, bm, sel@));
            assert forall|x: u64| #[trigger] wm.contains_key(x) implies has_second(conns@, x) == doomed(
                wm,
                bm,
                sel@,
                wm[x].bh,
            ) by {
                if has_second(conns@, x) {
                    let i = choose|i: int| 0 <= i < conns@.len() && #[trigger] conns@[i].1 == x;
                    assert(bm.contains_key(conns@[i].0));
                    assert(has_first(conns@, conns@[i].0));
                }
                if doomed(wm, bm, sel@, wm[x].bh) {
                    let b = wm[x].bh;
                    assert(has_first(conns@, b));
                    let i = choose|i: int| 0 <= i < conns@.len() && #[trigger] conns@[i].0 == b;
                    assert(conns@[i].1 == x);
                }
            }
            assert(self.white@ =~= white_after(wm, bm, sel@));
        }
        self.holes = new_holes;
        proof {
            assert forall|a: int, b: int|
                0 <= a < conns@.len() && 0 <= b < conns@.len() && a != b implies conns@[a] != conns@[b] by {
                if a < b {
                    assert(conns@[a].0 != conns@[b].0);
                } else {
                    assert(conns@[b].0 != conns@[a].0);
                }
            }
            lemma_delete_keeps_wf(hm, wm, bm, sel@, self.holes@);
            assert forall|b: u64, w: u64| #[trigger] conns@.contains((b, w)) <==> (doomed(wm, bm, sel@, b)
                && w == bm[b].wh) by {
                if conns@.contains((b, w)) {
                    let i = choose|i: int| 0 <= i < conns@.len() && conns@[i] == (b, w);
                    assert(conns@[i].0 == b);
                    assert(has_first(conns@, b));
                }
                if doomed(wm, bm, sel@, b) && w == bm[b].wh {
                    assert(has_first(conns@, b));
                    let i = choose|i: int| 0 <= i < conns@.len() && #[trigger] conns@[i].0 == b;
                    assert(conns@[i].1 == bm[b].wh);
                    assert(conns@[i] == (b, w));
                }
            }
        }
        Deletion { circles, connections: conns, lost }
    }
}

// ---------------------------------------------------------------------------
// connecting targets, loading
// ---------------------------------------------------------------------------

/// The connections that chain `targets` in order: each target to the next,
/// skipping a target followed by itself.
pub open spec fn chain_pairs(targets: Seq<u64>) -> Seq<(u64, u64)>
    decreases targets.len(),
{
    if targets.len() < 2 {
        Seq::empty()
    } else {
        let rest = chain_pairs(targets.drop_last());
        let a = targets[targets.len() - 2];
        let b = targets[targets.len() - 1];
        if a != b {
            rest.push((a, b))
        } else {
            rest
        }
    }
}

/// Each target with the one after it, in order.
pub open spec fn neighbours(targets: Seq<u64>) -> Seq<(u64, u64)> {
    if targets.len() == 0 {
        Seq::empty()
    } else {
        Seq::new((targets.len() - 1) as nat, |i: int| (targets[i], targets[i + 1]))
    }
}

/// Chaining targets connects each target to the next one, in order, and
/// leaves out exactly the pairs of a target with itself.
pub proof fn lemma_chain_connects_neighbours(targets: Seq<u64>)
    ensures
        chain_pairs(targets) == neighbours(targets).filter(|p: (u64, u64)| p.0 != p.1),
    decreases targets.len(),
{
    reveal(Seq::filter);
    let w = neighbours(targets);
    if targets.len() >= 2 {
        let t0 = targets.drop_last();
        lemma_chain_connects_neighbours(t0);
        assert(w.drop_last() =~= neighbours(t0));
        assert(w.last() == (targets[targets.len() - 2], targets[targets.len() - 1]));
    } else {
        assert(w =~= Seq::<(u64, u64)>::empty());
    }
}

/// Adds the white holes that `connect_target` created to the targets of the
/// circle that asked for them: they go after its targets, in the order they
/// were created.
pub fn add_targets(targets: &mut Vec<u64>, created: &Vec<u64>)
    ensures
        final(targets)@ == old(targets)@ + created@,
{
    let mut i: usize = 0;
    while i < created.len()
        invariant
            i <= created.len(),
            targets@ == old(targets)@ + created@.take(i as int),
        decreases created.len() - i,
    {
        targets.push(created[i]);
        i += 1;
        assert(targets@ =~= old(targets)@ + created@.take(i as int));
    }
    assert(created@.take(i as int) =~= created@);
}

/// The (source, sink) pairs that chain `targets` in order, each target to
/// the next, skipping a target followed by itself.
pub fn connection_pairs(targets: &Vec<u64>) -> (pairs: Vec<(u64, u64)>)
    ensures
        pairs@ == chain_pairs(targets@),
{
    let mut pairs: Vec<(u64, u64)> = Vec::new();
    if targets.len() < 2 {
        return pairs;
    }
    let mut i: usize = 1;
    while i < targets.len()
        invariant
            1 <= i <= targets.len(),
            pairs@ == chain_pairs(targets@.take(i as int)),
        decreases targets.len() - i,
    {
        let a = targets[i - 1];
        let b = targets[i];
        proof {
            let t = targets@.take(i + 1);
            assert(t.drop_last() =~= targets@.take(i as int));
            assert(t[t.len() - 2] == a && t[t.len() - 1] == b);
        }
        if a != b {
            pairs.push((a, b));
        }
        i += 1;
    }
    proof {
        assert(targets@.take(i as int) =~= targets@);
    }
    pairs
}

/// Whether, on loading, hole `h` still belongs to a connection: its other
/// end exists and the circle at that end is drawn.
pub open spec fn restorable(
    white: Map<u64, WhiteHole>,
    black: Map<u64, BlackHole>,
    drawn: Set<u64>,
    h: u64,
) -> bool {
    if white.contains_key(h) {
        black.contains_key(white[h].bh) && drawn.contains(white[h].bh_parent)
    } else {
        black.contains_key(h) && white.contains_key(black[h].wh) && drawn.contains(black[h].wh_parent)
    }
}

/// The holes of `s` that still belong to a connection on loading, in order.
pub open spec fn restorable_holes(
    white: Map<u64, WhiteHole>,
    black: Map<u64, BlackHole>,
    drawn: Set<u64>,
    s: Seq<u64>,
) -> Seq<u64>
    decreases s.len(),
{
    if s.len() == 0 {
        Seq::empty()
    } else {
        let rest = restorable_holes(white, black, drawn, s.drop_last());
        if restorable(white, black, drawn, s.last()) {
            rest.push(s.last())
        } else {
            rest
        }
    }
}

impl Patch {
    /// The first white hole among `holes` with link types `lt`, if any.
    pub fn first_white_with(&self, holes: &Vec<u64>, lt: (i8, i8)) -> (r: Option<WhiteHole>)
        ensures
            match r {
                Some(w) => exists|k: int|
                    0 <= k < holes@.len() && self.white@.contains_key(#[trigger] holes@[k])
                        && self.white@[holes@[k]] == w && w.link_types == lt && forall|j: int|
                        0 <= j < k ==> !(self.white@.contains_key(#[trigger] holes@[j])
                            && self.white@[holes@[j]].link_types == lt),
                None => forall|j: int|
                    0 <= j < holes@.len() ==> !(self.white@.contains_key(#[trigger] holes@[j])
                        && self.white@[holes@[j]].link_types == lt),
            },
    {
        let mut i: usize = 0;
        while i < holes.len()
            invariant
                i <= holes.len(),
                forall|j: int|
                    0 <= j < i ==> !(self.white@.contains_key(#[trigger] holes@[j])
                        && self.white@[holes@[j]].link_types == lt),
            decreases holes.len() - i,
        {
            match self.white.get(&holes[i]) {
                Some(w) => {
                    if w.link_types.0 == lt.0 && w.link_types.1 == lt.1 {
                        return Some(*w);
                    }
                },
                None => {},
            }
            i += 1;
        }
        None
    }

    /// The holes of `list` that still belong to a connection when a saved
    /// patch is loaded, given the entities that are drawn.
    pub fn restorable_holes(&self, list: &Vec<u64>, drawn: &HashSet<u64>) -> (kept: Vec<u64>)
        ensures
            kept@ == restorable_holes(self.white@, self.black@, drawn@, list@),
    {
        let mut kept: Vec<u64> = Vec::new();
        let mut i: usize = 0;
        while i < list.len()
            invariant
                i <= list.len(),
                kept@ == restorable_holes(self.white@, self.black@, drawn@, list@.take(i as int)),
            decreases list.len() - i,
        {
            let h = list[i];
            proof {
                assert(list@.take(i + 1).drop_last() =~= list@.take(i as int));
                assert(list@.take(i + 1).last() == h);
            }
            let keep = match self.white.get(&h) {
                Some(w) => self.black.contains_key(&w.bh) && drawn.contains(&w.bh_parent),
                None => match self.black.get(&h) {
                    Some(b) => self.white.contains_key(&b.wh) && drawn.contains(&b.wh_parent),
                    None => false,
                },
            };
            if keep {
                kept.push(h);
            }
            i += 1;
        }
        proof {
            assert(list@.take(i as int) =~= list@);
        }
        kept
    }
}

/// Whether one of the black holes among `ids` sends into white hole `k`
/// (ids that are white holes themselves do not count).
pub open spec fn names_reader_of(
    white: Map<u64, WhiteHole>,
    black: Map<u64, BlackHole>,
    ids: Seq<u64>,
    k: u64,
) -> bool {
    exists|i: int|
        0 <= i < ids.len() && !white.contains_key(ids[i]) && black.contains_key(ids[i])
            && #[trigger] black[ids[i]].wh == k
}

/// The white holes after the link types of the targets `ids` are set to
/// `n`: a white hole target writes `n`, and the white hole fed by a black
/// hole target reads `n`.
pub open spec fn link_types_set(
    white: Map<u64, WhiteHole>,
    black: Map<u64, BlackHole>,
    ids: Seq<u64>,
    n: i8,
) -> Map<u64, WhiteHole> {
    Map::new(
        |k: u64| white.contains_key(k),
        |k: u64|
            WhiteHole {
                bh: white[k].bh,
                bh_parent: white[k].bh_parent,
                link_types: (
                    if names_reader_of(white, black, ids, k) {
                        n
                    } else {
                        white[k].link_types.0
                    },
                    if ids.contains(k) {
                        n
                    } else {
                        white[k].link_types.1
                    },
                ),
                open: white[k].open,
            },
    )
}

impl Patch {
    /// Sets the link types of the targets `ids` to `n`: a white hole target
    /// writes `n` from now on, and the white hole fed by a black hole target
    /// reads `n`. Other targets are left alone.
    pub fn set_target_link_types(&mut self, ids: &Vec<u64>, n: i8)
        requires
            forall|i: int|
                0 <= i < ids@.len() && old(self).black@.contains_key(#[trigger] ids@[i])
                    && !old(self).white@.contains_key(ids@[i]) ==> old(self).white@.contains_key(
                    old(self).black@[ids@[i]].wh,
                ),
        ensures
            final(self).white@ == link_types_set(old(self).white@, old(self).black@, ids@, n),
            final(self).black@ == old(self).black@,
            final(self).holes@ == old(self).holes@,
    {
        let ghost (wm, bm) = (old(self).white@, old(self).black@);
        let mut i: usize = 0;
        while i < ids.len()
            invariant
                i <= ids.len(),
                bm == old(self).black@,
                wm == old(self).white@,
                self.black@ == bm,
                self.holes@ == old(self).holes@,
                forall|i: int|
                    0 <= i < ids@.len() && bm.contains_key(#[trigger] ids@[i]) && !wm.contains_key(
                        ids@[i],
                    ) ==> wm.contains_key(bm[ids@[i]].wh),
                self.white@ == link_types_set(wm, bm, ids@.take(i as int), n),
            decreases ids.len() - i,
        {
            let t = ids[i];
            let mut target: Option<(u64, bool)> = None;
            if self.white.contains_key(&t) {
                target = Some((t, true));
            } else {
                match self.black.get(&t) {
                    Some(b) => {
                        target = Some((b.wh, false));
                    },
                    None => {},
                }
            }
            match target {
                Some((k, own)) => {
                    let w = *self.white.get(&k).unwrap();
                    let lt = if own {
                        (w.link_types.0, n)
                    } else {
                        (n, w.link_types.1)
                    };
                    self.white.insert(
                        k,
                        WhiteHole { bh: w.bh, bh_parent: w.bh_parent, link_types: lt, open: w.open },
                    );
                },
                None => {},
            }
            proof {
                let pre = ids@.take(i as int);
                let post = ids@.take(i + 1);
                assert(post =~= pre.push(t));
                assert forall|x: u64| #[trigger] post.contains(x) == (pre.contains(x) || x == t) by {
                    if pre.contains(x) {
                        let j = choose|j: int| 0 <= j < pre.len() && pre[j] == x;
                        assert(post[j] == x);
                    }
                    if x == t {
                        assert(post[i as int] == x);
                    }
                }
                assert forall|x: u64| #[trigger] names_reader_of(wm, bm, post, x) == (names_reader_of(
                    wm,
                    bm,
                    pre,
                    x,
                ) || (!wm.contains_key(t) && bm.contains_key(t) && bm[t].wh == x)) by {
                    if names_reader_of(wm, bm, pre, x) {
                        let j = choose|j: int|
                            0 <= j < pre.len() && !wm.contains_key(pre[j]) && bm.contains_key(pre[j])
                                && #[trigger] bm[pre[j]].wh == x;
                        assert(post[j] == pre[j]);
                    }
                    if !wm.contains_key(t) && bm.contains_key(t) && bm[t].wh == x {
                        assert(post[i as int] == t);
                    }
                    if names_reader_of(wm, bm, post, x) {
                        let j = choose|j: int|
                            0 <= j < post.len() && !wm.contains_key(post[j]) && bm.contains_key(post[j])
                                && #[trigger] bm[post[j]].wh == x;
                        if j < i {
                            assert(pre[j] == post[j]);
                        }
                    }
                }
                assert(ids@[i as int] == t);
                assert(self.white@ =~= link_types_set(wm, bm, post, n));
            }
            i += 1;
        }
        proof {
            assert(ids@.take(i as int) =~= ids@);
        }
    }
}

/// The ids of `ids` that are circles of the patch, in order.
pub open spec fn circles_of(holes: Map<u64, Vec<u64>>, ids: Seq<u64>) -> Seq<u64>
    decreases ids.len(),
{
    if ids.len() == 0 {
        Seq::empty()
    } else {
        let rest = circles_of(holes, ids.drop_last());
        if holes.contains_key(ids.last()) {
            rest.push(ids.last())
        } else {
            rest
        }
    }
}

/// The holes of the circles among `ids`, circle after circle.
pub open spec fn holes_of(holes: Map<u64, Vec<u64>>, ids: Seq<u64>) -> Seq<u64>
    decreases ids.len(),
{
    if ids.len() == 0 {
        Seq::empty()
    } else {
        let rest = holes_of(holes, ids.drop_last());
        if holes.contains_key(ids.last()) {
            rest + holes[ids.last()]@
        } else {
            rest
        }
    }
}

impl Patch {
    /// The targets that are circles, in order (the `connect_target` op keeps
    /// only those).
    pub fn keep_circles(&self, ids: &Vec<u64>) -> (r: Vec<u64>)
        ensures
            r@ == circles_of(self.holes@, ids@),
    {
        let mut r: Vec<u64> = Vec::new();
        let mut i: usize = 0;
        while i < ids.len()
            invariant
                i <= ids.len(),
                r@ == circles_of(self.holes@, ids@.take(i as int)),
            decreases ids.len() - i,
        {
            proof {
                assert(ids@.take(i + 1).drop_last() =~= ids@.take(i as int));
                assert(ids@.take(i + 1).last() == ids@[i as int]);
            }
            if self.holes.contains_key(&ids[i]) {
                r.push(ids[i]);
            }
            i += 1;
        }
        proof {
            assert(ids@.take(i as int) =~= ids@);
        }
        r
    }

    /// All the holes of the target circles, circle after circle (the
    /// `isolate_target` op selects them).
    pub fn holes_of_targets(&self, ids: &Vec<u64>) -> (r: Vec<u64>)
        ensures
            r@ == holes_of(self.holes@, ids@),
    {
        let mut r: Vec<u64> = Vec::new();
        let mut i: usize = 0;
        while i < ids.len()
            invariant
                i <= ids.len(),
                r@ == holes_of(self.holes@, ids@.take(i as int)),
            decreases ids.len() - i,
        {
            proof {
                assert(ids@.take(i + 1).drop_last() =~= ids@.take(i as int));
                assert(ids@.take(i + 1).last() == ids@[i as int]);
            }
            match self.holes.get(&ids[i]) {
                Some(list) => {
                    let ghost start = r@;
                    let mut k: usize = 0;
                    while k < list.len()
                        invariant
                            k <= list.len(),
                            r@ == start + list@.take(k as int),
                        decreases list.len() - k,
                    {
                        r.push(list[k]);
                        proof {
                            assert(list@.take(k + 1) =~= list@.take(k as int).push(list@[k as int]));
                        }
                        k += 1;
                    }
                    proof {
                        assert(list@.take(k as int) =~= list@);
                    }
                },
                None => {},
            }
            i += 1;
        }
        proof {
            assert(ids@.take(i as int) =~= ids@);
        }
        r
    }
}

/// The white holes after the circle with holes `holes` has new output of
/// each link type in `lts`, in turn.
pub open spec fn readers_opened_all(
    white: Map<u64, WhiteHole>,
    black: Map<u64, BlackHole>,
    holes: Seq<u64>,
    lts: Seq<i8>,
) -> Map<u64, WhiteHole>
    decreases lts.len(),
{
    if lts.len() == 0 {
        white
    } else {
        readers_opened(readers_opened_all(white, black, holes, lts.drop_last()), black, holes, lts.last())
    }
}

impl Patch {
    /// The circle with holes `holes` was dragged, changing the properties of
    /// link types `lts`: opens the white holes that read any of them from it.
    pub fn open_readers_of_types(&mut self, holes: &Vec<u64>, lts: &Vec<i8>)
        ensures
            final(self).white@ == readers_opened_all(old(self).white@, old(self).black@, holes@, lts@),
            final(self).black@ == old(self).black@,
            final(self).holes@ == old(self).holes@,
    {
        let mut i: usize = 0;
        while i < lts.len()
            invariant
                i <= lts.len(),
                self.black@ == old(self).black@,
                self.holes@ == old(self).holes@,
                self.white@ == readers_opened_all(old(self).white@, old(self).black@, holes@, lts@.take(i as int)),
            decreases lts.len() - i,
        {
            proof {
                assert(lts@.take(i + 1).drop_last() =~= lts@.take(i as int));
                assert(lts@.take(i + 1).last() == lts@[i as int]);
            }
            self.open_readers(holes, lts[i]);
            i += 1;
        }
        proof {
            assert(lts@.take(i as int) =~= lts@);
        }
    }
}

/// The white holes with the open flag of `id` flipped, where `id` is one.
pub open spec fn toggled(white: Map<u64, WhiteHole>, id: u64) -> Map<u64, WhiteHole> {
    if white.contains_key(id) {
        white.insert(id, with_open(white[id], !white[id].open))
    } else {
        white
    }
}

/// Toggling a white hole twice leaves every white hole as it was.
pub proof fn lemma_toggle_twice(white: Map<u64, WhiteHole>, id: u64)
    ensures
        toggled(toggled(white, id), id) == white,
{
    assert(toggled(toggled(white, id), id) =~= white);
}

/// Whether `k` occurs an odd number of times in `ids`: toggling each of
/// `ids` in turn flips `k` exactly then.
pub open spec fn flips(ids: Seq<u64>, k: u64) -> bool
    decreases ids.len(),
{
    if ids.len() == 0 {
        false
    } else {
        flips(ids.drop_last(), k) != (ids.last() == k)
    }
}

/// The white holes after each of `ids` is toggled in turn.
pub open spec fn toggled_all(white: Map<u64, WhiteHole>, ids: Seq<u64>) -> Map<u64, WhiteHole> {
    Map::new(
        |k: u64| white.contains_key(k),
        |k: u64|
            if flips(ids, k) {
                with_open(white[k], !white[k].open)
            } else {
                white[k]
            },
    )
}

/// Toggling a selection twice leaves every white hole as it was.
pub proof fn lemma_toggle_all_twice(white: Map<u64, WhiteHole>, ids: Seq<u64>)
    ensures
        toggled_all(toggled_all(white, ids), ids) == white,
{
    assert(toggled_all(toggled_all(white, ids), ids) =~= white);
}

impl Patch {
    /// Flips the open flag of white hole `id` (the `ht` commands); other ids
    /// are left alone.
    pub fn toggle_open(&mut self, id: u64)
        ensures
            final(self).white@ == toggled(old(self).white@, id),
            final(self).black@ == old(self).black@,
            final(self).holes@ == old(self).holes@,
    {
        let mut found: Option<WhiteHole> = None;
        match self.white.get(&id) {
            Some(w) => {
                found = Some(*w);
            },
            None => {},
        }
        match found {
            Some(w) => {
                self.white.insert(
                    id,
                    WhiteHole { bh: w.bh, bh_parent: w.bh_parent, link_types: w.link_types, open: !w.open },
                );
            },
            None => {},
        }
    }
}

proof fn lemma_surviving_all(
    white: Map<u64, WhiteHole>,
    black: Map<u64, BlackHole>,
    sel: Seq<u64>,
    s: Seq<u64>,
)
    requires
        forall|i: int| 0 <= i < s.len() ==> survives(white, black, sel, #[trigger] s[i]),
    ensures
        surviving(white, black, sel, s) == s,
    decreases s.len(),
{
    if s.len() > 0 {
        lemma_surviving_all(white, black, sel, s.drop_last());
        assert(s.drop_last().push(s.last()) =~= s);
    }
}

/// Deleting either hole of a connection just made gives back the patch as it
/// was before the connection: the same holes, the same lists.
pub proof fn lemma_delete_undoes_connect(
    holes: Map<u64, Vec<u64>>,
    white: Map<u64, WhiteHole>,
    black: Map<u64, BlackHole>,
    connected: Map<u64, Vec<u64>>,
    src: u64,
    snk: u64,
    b: u64,
    w: u64,
    lt: (i8, i8),
    x: u64,
)
    requires
        patch_wf(holes, white, black),
        src != snk,
        b != w,
        holes.contains_key(src),
        holes.contains_key(snk),
        !holes.contains_key(b),
        !white.contains_key(b),
        !black.contains_key(b),
        !holes.contains_key(w),
        !white.contains_key(w),
        !black.contains_key(w),
        connected.dom() == holes.dom(),
        connected[src]@ == holes[src]@.push(b),
        connected[snk]@ == holes[snk]@.push(w),
        forall|k: u64| #[trigger]
            connected.contains_key(k) && k != src && k != snk ==> connected[k] == holes[k],
        x == b || x == w,
    ensures
        ({
            let white2 = white.insert(w, WhiteHole { bh: b, bh_parent: src, link_types: lt, open: true });
            let black2 = black.insert(b, BlackHole { wh: w, wh_parent: snk });
            &&& black_after(white2, black2, seq![x]) == black
            &&& white_after(white2, black2, seq![x]) == white
            &&& forall|c: u64| #[trigger]
                holes.contains_key(c) && !seq![x].contains(c) ==> surviving(
                    white2,
                    black2,
                    seq![x],
                    connected[c]@,
                ) == holes[c]@
        }),
{
    let white2 = white.insert(w, WhiteHole { bh: b, bh_parent: src, link_types: lt, open: true });
    let black2 = black.insert(b, BlackHole { wh: w, wh_parent: snk });
    let sel = seq![x];
    assert(sel[0] == x);
    assert(touches(white2, black2, sel[0], b));
    assert forall|k: u64| black.contains_key(k) implies !doomed(white2, black2, sel, k) by {
        assert(k != b);
        assert(white.contains_key(black[k].wh));
        if doomed(white2, black2, sel, k) {
            let j = choose|j: int| 0 <= j < sel.len() && #[trigger] touches(white2, black2, sel[j], k);
            assert(j == 0);
        }
    }
    assert(black_after(white2, black2, sel) =~= black);
    assert forall|k: u64| white.contains_key(k) implies !doomed(white2, black2, sel, white2[k].bh) by {
        assert(k != w);
        assert(black.contains_key(white[k].bh));
    }
    assert(doomed(white2, black2, sel, b));
    assert(white_after(white2, black2, sel) =~= white);
    assert forall|c: u64| #[trigger]
        holes.contains_key(c) && !sel.contains(c) implies surviving(white2, black2, sel, connected[c]@)
        == holes[c]@ by {
        let old_list = holes[c]@;
        assert forall|i: int| 0 <= i < old_list.len() implies survives(
            white2,
            black2,
            sel,
            #[trigger] old_list[i],
        ) by {
            let h = old_list[i];
            assert(holes[c]@[i] == h);
            if black.contains_key(h) {
                assert(h != b);
            } else {
                assert(white.contains_key(h));
                assert(h != w);
                assert(black.contains_key(white[h].bh));
            }
        }
        lemma_surviving_all(white2, black2, sel, old_list);
        if c == src {
            assert(connected[c]@.drop_last() =~= old_list);
            assert(!survives(white2, black2, sel, b));
        } else if c == snk {
            assert(connected[c]@.drop_last() =~= old_list);
            assert(!survives(white2, black2, sel, w));
        }
    }
}

/// A change of link type: set to a value, or one up or down (stopping at
/// the ends of the range).
#[derive(Clone, Copy, PartialEq, Eq, Structural, Debug)]
pub enum LinkEdit {
    To(i8),
    Up,
    Down,
}

/// A link type after `e`.
pub open spec fn edited_link(e: LinkEdit, x: i8) -> i8 {
    match e {
        LinkEdit::To(n) => n,
        LinkEdit::Up => if x == 127 {
            127i8
        } else {
            (x + 1) as i8
        },
        LinkEdit::Down => if x == -128 {
            -128i8
        } else {
            (x - 1) as i8
        },
    }
}

/// The white holes after the link type end that hole `id` stands for is
/// changed by `e` and its white hole opened: a white hole changes what it
/// writes, a black hole what its white hole reads.
pub open spec fn link_edited(
    white: Map<u64, WhiteHole>,
    black: Map<u64, BlackHole>,
    id: u64,
    e: LinkEdit,
) -> Map<u64, WhiteHole> {
    if white.contains_key(id) {
        let w = white[id];
        white.insert(
            id,
            WhiteHole {
                bh: w.bh,
                bh_parent: w.bh_parent,
                link_types: (w.link_types.0, edited_link(e, w.link_types.1)),
                open: true,
            },
        )
    } else if black.contains_key(id) {
        let k = black[id].wh;
        let w = white[k];
        white.insert(
            k,
            WhiteHole {
                bh: w.bh,
                bh_parent: w.bh_parent,
                link_types: (edited_link(e, w.link_types.0), w.link_types.1),
                open: true,
            },
        )
    } else {
        white
    }
}

/// The white holes after each hole of `ids` in turn has its link type
/// changed by `e`.
pub open spec fn links_edited(
    white: Map<u64, WhiteHole>,
    black: Map<u64, BlackHole>,
    ids: Seq<u64>,
    e: LinkEdit,
) -> Map<u64, WhiteHole>
    decreases ids.len(),
{
    if ids.len() == 0 {
        white
    } else {
        link_edited(links_edited(white, black, ids.drop_last(), e), black, ids.last(), e)
    }
}

fn edit_link(e: LinkEdit, x: i8) -> (r: i8)
    ensures
        r == edited_link(e, x),
{
    match e {
        LinkEdit::To(n) => n,
        LinkEdit::Up => if x == 127 {
            127
        } else {
            x + 1
        },
        LinkEdit::Down => if x == -128 {
            -128
        } else {
            x - 1
        },
    }
}

impl Patch {
    /// Changes the link types of the holes `ids` by `e` and opens their white
    /// holes (the `:lt` command and the `}` and `{` keys): a white hole
    /// changes what it writes, a black hole what its white hole reads.
    pub fn edit_link_types(&mut self, ids: &Vec<u64>, e: LinkEdit)
        requires
            forall|i: int|
                0 <= i < ids@.len() && old(self).black@.contains_key(#[trigger] ids@[i]) ==> old(
                    self,
                ).white@.contains_key(old(self).black@[ids@[i]].wh),
        ensures
            final(self).white@ == links_edited(old(self).white@, old(self).black@, ids@, e),
            final(self).black@ == old(self).black@,
            final(self).holes@ == old(self).holes@,
    {
        let ghost (wm, bm) = (old(self).white@, old(self).black@);
        let mut i: usize = 0;
        while i < ids.len()
            invariant
                i <= ids.len(),
                bm == old(self).black@,
                self.black@ == bm,
                self.holes@ == old(self).holes@,
                forall|i: int|
                    0 <= i < ids@.len() && bm.contains_key(#[trigger] ids@[i]) ==> wm.contains_key(
                        bm[ids@[i]].wh,
                    ),
                wm.dom() == self.white@.dom(),
                self.white@ == links_edited(wm, bm, ids@.take(i as int), e),
            decreases ids.len() - i,
        {
            let id = ids[i];
            proof {
                assert(ids@.take(i + 1).drop_last() =~= ids@.take(i as int));
                assert(ids@.take(i + 1).last() == id);
            }
            let mut target: Option<(u64, bool)> = None;
            if self.white.contains_key(&id) {
                target = Some((id, true));
            } else {
                match self.black.get(&id) {
                    Some(b) => {
                        target = Some((b.wh, false));
                    },
                    None => {},
                }
            }
            match target {
                Some((k, own)) => {
                    let w = *self.white.get(&k).unwrap();
                    let lt = if own {
                        (w.link_types.0, edit_link(e, w.link_types.1))
                    } else {
                        (edit_link(e, w.link_types.0), w.link_types.1)
                    };
                    self.white.insert(
                        k,
                        WhiteHole { bh: w.bh, bh_parent: w.bh_parent, link_types: lt, open: true },
                    );
                },
                None => {},
            }
            proof {
                assert(self.white@.dom() =~= wm.dom());
            }
            i += 1;
        }
        proof {
            assert(ids@.take(i as int) =~= ids@);
        }
    }
}

// ---------------------------------------------------------------------------
// checking that a patch hangs together
// ---------------------------------------------------------------------------

/// White hole `k` points to a black hole that points back, and its id names
/// nothing else.
pub open spec fn white_ok(
    holes: Map<u64, Vec<u64>>,
    white: Map<u64, WhiteHole>,
    black: Map<u64, BlackHole>,
    k: u64,
) -> bool {
    &&& !black.contains_key(k)
    &&& !holes.contains_key(k)
    &&& black.contains_key(white[k].bh)
    &&& black[white[k].bh].wh == k
}

/// Black hole `b` has its white hole pointing back, joins two different
/// existing circles, and both list their end.
pub open spec fn black_ok(
    holes: Map<u64, Vec<u64>>,
    white: Map<u64, WhiteHole>,
    black: Map<u64, BlackHole>,
    b: u64,
) -> bool {
    let w = black[b].wh;
    &&& !holes.contains_key(b)
    &&& white.contains_key(w)
    &&& white[w].bh == b
    &&& holes.contains_key(white[w].bh_parent)
    &&& holes.contains_key(black[b].wh_parent)
    &&& white[w].bh_parent != black[b].wh_parent
    &&& holes[white[w].bh_parent]@.contains(b)
    &&& holes[black[b].wh_parent]@.contains(w)
}

/// Hole `h`, listed by circle `c`, sits on `c`.
pub open spec fn listed_ok(
    white: Map<u64, WhiteHole>,
    black: Map<u64, BlackHole>,
    c: u64,
    h: u64,
) -> bool {
    ||| black.contains_key(h) && white.contains_key(black[h].wh) && white[black[h].wh].bh_parent == c
    ||| white.contains_key(h) && black.contains_key(white[h].bh) && black[white[h].bh].wh_parent == c
}

impl Patch {
    fn white_ids(&self) -> (ids: Vec<u64>)
        ensures
            ids@.to_set() == self.white@.dom(),
    {
        let mut ids: Vec<u64> = Vec::new();
        let ghost all = vstd::std_specs::hash::spec_keys_iter(&self.white).remaining().unref();
        for k in it: self.white.keys()
            invariant
                it.seq().unref() == all,
                all.to_set() == self.white@.dom(),
                ids@ == all.take(it.index() as int),
            ensures
                ids@ == all,
        {
            ids.push(*k);
            proof {
                assert(all[it.index() as int] == *k);
                assert(all.take(it.index() + 1) =~= all.take(it.index() as int).push(*k));
            }
        }
        ids
    }

    fn black_ids(&self) -> (ids: Vec<u64>)
        ensures
            ids@.to_set() == self.black@.dom(),
    {
        let mut ids: Vec<u64> = Vec::new();
        let ghost all = vstd::std_specs::hash::spec_keys_iter(&self.black).remaining().unref();
        for k in it: self.black.keys()
            invariant
                it.seq().unref() == all,
                all.to_set() == self.black@.dom(),
                ids@ == all.take(it.index() as int),
            ensures
                ids@ == all,
        {
            ids.push(*k);
            proof {
                assert(all[it.index() as int] == *k);
                assert(all.take(it.index() + 1) =~= all.take(it.index() as int).push(*k));
            }
        }
        ids
    }

    fn white_hole_ok(&self, k: u64) -> (r: bool)
        requires
            self.white@.contains_key(k),
        ensures
            r == white_ok(self.holes@, self.white@, self.black@, k),
    {
        let w = *self.white.get(&k).unwrap();
        if self.black.contains_key(&k) || self.holes.contains_key(&k) {
            return false;
        }
        match self.black.get(&w.bh) {
            Some(b) => b.wh == k,
            None => false,
        }
    }

    fn black_hole_ok(&self, b: u64) -> (r: bool)
        requires
            self.black@.contains_key(b),
        ensures
            r == black_ok(self.holes@, self.white@, self.black@, b),
    {
        let bh = *self.black.get(&b).unwrap();
        if self.holes.contains_key(&b) {
            return false;
        }
        let w = match self.white.get(&bh.wh) {
            Some(w) => *w,
            None => return false,
        };
        if w.bh != b || w.bh_parent == bh.wh_parent {
            return false;
        }
        let from = match self.holes.get(&w.bh_parent) {
            Some(l) => l,
            None => return false,
        };
        let to = match self.holes.get(&bh.wh_parent) {
            Some(l) => l,
            None => return false,
        };
        Self::contains_id(from, b) && Self::contains_id(to, bh.wh)
    }

    fn listed_hole_ok(&self, c: u64, h: u64) -> (r: bool)
        ensures
            r == listed_ok(self.white@, self.black@, c, h),
    {
        match self.black.get(&h) {
            Some(b) => match self.white.get(&b.wh) {
                Some(w) => {
                    if w.bh_parent == c {
                        return true;
                    }
                },
                None => {},
            },
            None => {},
        }
        match self.white.get(&h) {
            Some(w) => match self.black.get(&w.bh) {
                Some(b) => b.wh_parent == c,
                None => false,
            },
            None => false,
        }
    }

    /// Whether the connections of the patch hang together (see `patch_wf`).
    pub fn is_wf(&self) -> (r: bool)
        ensures
            r == self.wf(),
    {
        let ghost (hm, wm, bm) = (self.holes@, self.white@, self.black@);
        let mut all_ok = true;
        let whites = self.white_ids();
        let mut i: usize = 0;
        while i < whites.len()
            invariant
                hm == self.holes@,
                wm == self.white@,
                bm == self.black@,
                whites@.to_set() == wm.dom(),
                i <= whites.len(),
                all_ok == forall|j: int| 0 <= j < i ==> #[trigger] white_ok(hm, wm, bm, whites@[j]),
            decreases whites.len() - i,
        {
            proof {
                assert(whites@.to_set().contains(whites@[i as int]));
            }
            let ok = self.white_hole_ok(whites[i]);
            proof {
                if all_ok && !ok {
                    assert(!white_ok(hm, wm, bm, whites@[i as int]));
                }
            }
            all_ok = all_ok && ok;
            i += 1;
        }
        let blacks = self.black_ids();
        let mut k: usize = 0;
        while k < blacks.len()
            invariant
                hm == self.holes@,
                wm == self.white@,
                bm == self.black@,
                blacks@.to_set() == bm.dom(),
                whites@.to_set() == wm.dom(),
                k <= blacks.len(),
                all_ok == ((forall|j: int| 0 <= j < whites@.len() ==> #[trigger] white_ok(hm, wm, bm, whites@[j]))
                    && forall|j: int| 0 <= j < k ==> #[trigger] black_ok(hm, wm, bm, blacks@[j])),
            decreases blacks.len() - k,
        {
            proof {
                assert(blacks@.to_set().contains(blacks@[k as int]));
            }
            let ok = self.black_hole_ok(blacks[k]);
            all_ok = all_ok && ok;
            k += 1;
        }
        let circles = self.circle_ids();
        let mut m: usize = 0;
        while m < circles.len()
            invariant
                hm == self.holes@,
                wm == self.white@,
                bm == self.black@,
                blacks@.to_set() == bm.dom(),
                whites@.to_set() == wm.dom(),
                circles@.to_set() == hm.dom(),
                m <= circles.len(),
                all_ok == ((forall|j: int| 0 <= j < whites@.len() ==> #[trigger] white_ok(hm, wm, bm, whites@[j]))
                    && (forall|j: int| 0 <= j < blacks@.len() ==> #[trigger] black_ok(hm, wm, bm, blacks@[j]))
                    && forall|j: int, q: int|
                    0 <= j < m && 0 <= q < hm[circles@[j]]@.len() ==> #[trigger] listed_ok(
                        wm,
                        bm,
                        circles@[j],
                        hm[circles@[j]]@[q],
                    )),
            decreases circles.len() - m,
        {
            let c = circles[m];
            proof {
                assert(circles@.to_set().contains(c));
            }
            let list = self.holes.get(&c).unwrap();
            let mut q: usize = 0;
            let mut list_ok = true;
            while q < list.len()
                invariant
                    wm == self.white@,
                    bm == self.black@,
                    list@ == hm[c]@,
                    q <= list.len(),
                    list_ok == forall|r: int| 0 <= r < q ==> #[trigger] listed_ok(wm, bm, c, list@[r]),
                decreases list.len() - q,
            {
                let ok = self.listed_hole_ok(c, list[q]);
                list_ok = list_ok && ok;
                q += 1;
            }
            proof {
                let pre = forall|j: int, q: int|
                    0 <= j < m && 0 <= q < hm[circles@[j]]@.len() ==> #[trigger] listed_ok(
                        wm,
                        bm,
                        circles@[j],
                        hm[circles@[j]]@[q],
                    );
                let post = forall|j: int, q: int|
                    0 <= j < m + 1 && 0 <= q < hm[circles@[j]]@.len() ==> #[trigger] listed_ok(
                        wm,
                        bm,
                        circles@[j],
                        hm[circles@[j]]@[q],
                    );
                if pre && list_ok {
                    assert forall|j: int, q: int|
                        0 <= j < m + 1 && 0 <= q < hm[circles@[j]]@.len() implies #[trigger] listed_ok(
                        wm,
                        bm,
                        circles@[j],
                        hm[circles@[j]]@[q],
                    ) by {
                        if j == m {
                            assert(listed_ok(wm, bm, c, list@[q]));
                        }
                    }
                }
                if !list_ok {
                    let r = choose|r: int| 0 <= r < list@.len() && !#[trigger] listed_ok(wm, bm, c, list@[r]);
                    assert(!listed_ok(wm, bm, circles@[m as int], hm[circles@[m as int]]@[r]));
                }
            }
            all_ok = all_ok && list_ok;
            m += 1;
        }
        proof {
            lemma_wf_by_parts(hm, wm, bm, whites@, blacks@, circles@);
        }
        all_ok
    }
}

proof fn lemma_wf_by_parts(
    holes: Map<u64, Vec<u64>>,
    white: Map<u64, WhiteHole>,
    black: Map<u64, BlackHole>,
    whites: Seq<u64>,
    blacks: Seq<u64>,
    circles: Seq<u64>,
)
    requires
        whites.to_set() == white.dom(),
        blacks.to_set() == black.dom(),
        circles.to_set() == holes.dom(),
    ensures
        patch_wf(holes, white, black) == ((forall|j: int| 0 <= j < whites.len() ==> #[trigger] white_ok(holes, white, black, whites[j]))
            && (forall|j: int| 0 <= j < blacks.len() ==> #[trigger] black_ok(holes, white, black, blacks[j]))
            && forall|j: int, q: int|
            0 <= j < circles.len() && 0 <= q < holes[circles[j]]@.len() ==> #[trigger] listed_ok(
                white,
                black,
                circles[j],
                holes[circles[j]]@[q],
            )),
{
    let parts = (forall|j: int| 0 <= j < whites.len() ==> #[trigger] white_ok(holes, white, black, whites[j]))
        && (forall|j: int| 0 <= j < blacks.len() ==> #[trigger] black_ok(holes, white, black, blacks[j]))
        && forall|j: int, q: int|
        0 <= j < circles.len() && 0 <= q < holes[circles[j]]@.len() ==> #[trigger] listed_ok(
            white,
            black,
            circles[j],
            holes[circles[j]]@[q],
        );
    assert forall|k: u64| white.contains_key(k) implies whites.contains(k) by {
        assert(whites.to_set().contains(k));
    }
    assert forall|k: u64| black.contains_key(k) implies blacks.contains(k) by {
        assert(blacks.to_set().contains(k));
    }
    assert forall|k: u64| holes.contains_key(k) implies circles.contains(k) by {
        assert(circles.to_set().contains(k));
    }
    if patch_wf(holes, white, black) {
        assert forall|j: int| 0 <= j < whites.len() implies #[trigger] white_ok(holes, white, black, whites[j]) by {
            assert(whites.to_set().contains(whites[j]));
        }
        assert forall|j: int| 0 <= j < blacks.len() implies #[trigger] black_ok(holes, white, black, blacks[j]) by {
            assert(blacks.to_set().contains(blacks[j]));
        }
        assert forall|j: int, q: int|
            0 <= j < circles.len() && 0 <= q < holes[circles[j]]@.len() implies #[trigger] listed_ok(
            white,
            black,
            circles[j],
            holes[circles[j]]@[q],
        ) by {
            let c = circles[j];
            assert(circles.to_set().contains(c));
            let h = holes[c]@[q];
            if black.contains_key(h) {
                assert(white.contains_key(black[h].wh));
            }
        }
    }
    if parts {
        assert forall|k: u64| #[trigger]
            white.contains_key(k) implies !black.contains_key(k) && !holes.contains_key(k) by {
            let j = choose|j: int| 0 <= j < whites.len() && whites[j] == k;
            assert(white_ok(holes, white, black, whites[j]));
        }
        assert forall|k: u64| #[trigger] black.contains_key(k) implies !holes.contains_key(k) by {
            let j = choose|j: int| 0 <= j < blacks.len() && blacks[j] == k;
            assert(black_ok(holes, white, black, blacks[j]));
        }
        assert forall|b: u64| #[trigger] black.contains_key(b) implies {
            let w = black[b].wh;
            &&& white.contains_key(w)
            &&& white[w].bh == b
            &&& holes.contains_key(white[w].bh_parent)
            &&& holes.contains_key(black[b].wh_parent)
            &&& white[w].bh_parent != black[b].wh_parent
            &&& holes[white[w].bh_parent]@.contains(b)
            &&& holes[black[b].wh_parent]@.contains(w)
        } by {
            let j = choose|j: int| 0 <= j < blacks.len() && blacks[j] == b;
            assert(black_ok(holes, white, black, blacks[j]));
        }
        assert forall|w: u64| #[trigger]
            white.contains_key(w) implies black.contains_key(white[w].bh) && black[white[w].bh].wh == w by {
            let j = choose|j: int| 0 <= j < whites.len() && whites[j] == w;
            assert(white_ok(holes, white, black, whites[j]));
        }
        assert forall|c: u64, i: int| holes.contains_key(c) && 0 <= i < holes[c]@.len() implies {
            let h = #[trigger] holes[c]@[i];
            ||| black.contains_key(h) && source_of(white, black, h) == c
            ||| white.contains_key(h) && black[white[h].bh].wh_parent == c
        } by {
            let j = choose|j: int| 0 <= j < circles.len() && circles[j] == c;
            assert(listed_ok(white, black, circles[j], holes[circles[j]]@[i]));
        }
    }
}

/// Which white holes to open after a command changed a property of link type
/// `lt`: the readers of one circle, of every selected circle, or none.
#[derive(Clone, Copy, PartialEq, Eq, Debug)]
pub enum Reopen {
    Nothing,
    Selected(i8),
    One(u64, i8),
}

/// What a command that changed property `lt` of `target` (or of the
/// selection, when there is no target) opens: the readers of the target when
/// it had the property, nothing when it did not, and the readers of the
/// selected circles when there was no target.
pub fn reopen_after(target: Option<u64>, done: bool, lt: i8) -> (r: Reopen)
    ensures
        r == (match target {
            Some(e) => if done {
                Reopen::One(e, lt)
            } else {
                Reopen::Nothing
            },
            None => Reopen::Selected(lt),
        }),
{
    match target {
        Some(e) => if done {
            Reopen::One(e, lt)
        } else {
            Reopen::Nothing
        },
        None => Reopen::Selected(lt),
    }
}

/// The white holes after the readers of link type `lt` of each circle among
/// `circles` (those that have holes) are opened, one circle after another.
pub open spec fn circles_readers_opened(
    white: Map<u64, WhiteHole>,
    black: Map<u64, BlackHole>,
    holes: Map<u64, Vec<u64>>,
    circles: Seq<u64>,
    lt: i8,
) -> Map<u64, WhiteHole>
    decreases circles.len(),
{
    if circles.len() == 0 {
        white
    } else {
        let w = circles_readers_opened(white, black, holes, circles.drop_last(), lt);
        if holes.contains_key(circles.last()) {
            readers_opened(w, black, holes[circles.last()]@, lt)
        } else {
            w
        }
    }
}

/// The circles whose readers a `Reopen` opens, given the selection.
pub open spec fn reopen_circles(r: Reopen, selected: Seq<u64>) -> Seq<u64> {
    match r {
        Reopen::Nothing => Seq::empty(),
        Reopen::Selected(_) => selected,
        Reopen::One(e, _) => seq![e],
    }
}

/// The link type a `Reopen` opens readers of (any, when it opens nothing).
pub open spec fn reopen_lt(r: Reopen) -> i8 {
    match r {
        Reopen::Nothing => 0,
        Reopen::Selected(lt) => lt,
        Reopen::One(_, lt) => lt,
    }
}

fn copy_ids(v: &Vec<u64>) -> (r: Vec<u64>)
    ensures
        r@ == v@,
{
    let mut r: Vec<u64> = Vec::new();
    let mut i: usize = 0;
    while i < v.len()
        invariant
            i <= v.len(),
            r@ == v@.take(i as int),
        decreases v.len() - i,
    {
        r.push(v[i]);
        i += 1;
        assert(r@ =~= v@.take(i as int));
    }
    assert(v@.take(i as int) =~= v@);
    r
}

impl Patch {
    /// Toggles each white hole among `ids` in turn (the `ht` key command on
    /// the selection); ids of other entities are left alone.
    pub fn toggle_open_all(&mut self, ids: &Vec<u64>)
        ensures
            final(self).white@ == toggled_all(old(self).white@, ids@),
            final(self).black@ == old(self).black@,
            final(self).holes@ == old(self).holes@,
    {
        let mut i: usize = 0;
        while i < ids.len()
            invariant
                i <= ids.len(),
                self.black@ == old(self).black@,
                self.holes@ == old(self).holes@,
                self.white@ == toggled_all(old(self).white@, ids@.take(i as int)),
            decreases ids.len() - i,
        {
            let ghost before = self.white@;
            proof {
                assert(ids@.take(i + 1).drop_last() =~= ids@.take(i as int));
                assert(ids@.take(i + 1).last() == ids@[i as int]);
            }
            self.toggle_open(ids[i]);
            i += 1;
            assert(self.white@ =~= toggled_all(old(self).white@, ids@.take(i as int)));
        }
        proof {
            assert(ids@.take(i as int) =~= ids@);
        }
    }

    /// Opens the white holes that read property `lt` from each of `circles`.
    pub fn open_readers_of_circles(&mut self, circles: &Vec<u64>, lt: i8)
        ensures
            final(self).white@ == circles_readers_opened(
                old(self).white@,
                old(self).black@,
                old(self).holes@,
                circles@,
                lt,
            ),
            final(self).black@ == old(self).black@,
            final(self).holes@ == old(self).holes@,
    {
        let mut i: usize = 0;
        while i < circles.len()
            invariant
                i <= circles.len(),
                self.black@ == old(self).black@,
                self.holes@ == old(self).holes@,
                self.white@ == circles_readers_opened(
                    old(self).white@,
                    old(self).black@,
                    old(self).holes@,
                    circles@.take(i as int),
                    lt,
                ),
            decreases circles.len() - i,
        {
            proof {
                assert(circles@.take(i + 1).drop_last() =~= circles@.take(i as int));
                assert(circles@.take(i + 1).last() == circles@[i as int]);
            }
            let c = circles[i];
            let list = match self.holes.get(&c) {
                Some(l) => Some(copy_ids(l)),
                None => None,
            };
            match list {
                Some(l) => self.open_readers(&l, lt),
                None => {},
            }
            i += 1;
        }
        proof {
            assert(circles@.take(i as int) =~= circles@);
        }
    }

    /// Opens what `r` asks for: the readers of its circle, or of the
    /// selected circles.
    pub fn reopen(&mut self, r: Reopen, selected: &Vec<u64>)
        ensures
            final(self).white@ == circles_readers_opened(
                old(self).white@,
                old(self).black@,
                old(self).holes@,
                reopen_circles(r, selected@),
                reopen_lt(r),
            ),
            final(self).black@ == old(self).black@,
            final(self).holes@ == old(self).holes@,
    {
        match r {
            Reopen::Nothing => {
                assert(reopen_circles(r, selected@) =~= Seq::<u64>::empty());
            },
            Reopen::Selected(lt) => self.open_readers_of_circles(selected, lt),
            Reopen::One(e, lt) => {
                let v = vec![e];
                assert(v@ =~= seq![e]);
                self.open_readers_of_circles(&v, lt);
            },
        }
    }
}

} // verus!
