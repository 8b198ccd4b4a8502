use vstd::prelude::*;

verus! {

/// A property that dragging (or the arrow keys) changes on the selection.
#[derive(Clone, Copy, PartialEq, Eq, Structural, Debug)]
pub enum DragMode {
    Translation,
    Radius,
    Num,
    Hue,
    Saturation,
    Lightness,
    Alpha,
    Rotation,
    Vertices,
}

/// Which properties dragging changes; any number of them at once.
#[derive(Clone, Copy, PartialEq, Eq, Structural, Debug)]
pub struct DragModes {
    pub t: bool,
    pub r: bool,
    pub n: bool,
    pub h: bool,
    pub s: bool,
    pub l: bool,
    pub a: bool,
    pub o: bool,
    pub v: bool,
}

impl Default for DragModes {
    /// Dragging changes nothing (the `ee` state).
    fn default() -> (d: Self)
        ensures
            d.none(),
    {
        DragModes { t: false, r: false, n: false, h: false, s: false, l: false, a: false, o: false, v: false }
    }
}

impl DragModes {
    /// Whether dragging changes `mode`.
    pub open spec fn has(self, mode: DragMode) -> bool {
        match mode {
            DragMode::Translation => self.t,
            DragMode::Radius => self.r,
            DragMode::Num => self.n,
            DragMode::Hue => self.h,
            DragMode::Saturation => self.s,
            DragMode::Lightness => self.l,
            DragMode::Alpha => self.a,
            DragMode::Rotation => self.o,
            DragMode::Vertices => self.v,
        }
    }

    /// Whether dragging changes nothing.
    pub open spec fn none(self) -> bool {
        forall|m: DragMode| !#[trigger] self.has(m)
    }

    /// Turns every drag mode off.
    pub fn falsify(&mut self)
        ensures
            final(self).none(),
    {
        self.t = false;
        self.r = false;
        self.n = false;
        self.h = false;
        self.s = false;
        self.l = false;
        self.a = false;
        self.o = false;
        self.v = false;
    }

    /// Turns one drag mode on, leaving the others as they are.
    pub fn add(&mut self, mode: DragMode)
        ensures
            final(self).has(mode),
            forall|m: DragMode| m != mode ==> #[trigger] final(self).has(m) == old(self).has(m),
    {
        match mode {
            DragMode::Translation => self.t = true,
            DragMode::Radius => self.r = true,
            DragMode::Num => self.n = true,
            DragMode::Hue => self.h = true,
            DragMode::Saturation => self.s = true,
            DragMode::Lightness => self.l = true,
            DragMode::Alpha => self.a = true,
            DragMode::Rotation => self.o = true,
            DragMode::Vertices => self.v = true,
        }
    }

    /// Makes `mode` the only drag mode.
    pub fn only(&mut self, mode: DragMode)
        ensures
            forall|m: DragMode| #[trigger] final(self).has(m) == (m == mode),
    {
        self.falsify();
        self.add(mode);
    }

    /// The link types that dragging changes, in the order translation (x
    /// then y), radius, num, hue, saturation, lightness, alpha, rotation,
    /// vertices: white holes reading these are reopened while dragging.
    pub open spec fn spec_link_types(self) -> Seq<i8> {
        let s0 = push_if(Seq::empty(), self.t, -3i8);
        let s1 = push_if(s0, self.t, -4i8);
        let s2 = push_if(s1, self.r, -2i8);
        let s3 = push_if(s2, self.n, -1i8);
        let s4 = push_if(s3, self.h, -6i8);
        let s5 = push_if(s4, self.s, -7i8);
        let s6 = push_if(s5, self.l, -8i8);
        let s7 = push_if(s6, self.a, -9i8);
        let s8 = push_if(s7, self.o, -12i8);
        push_if(s8, self.v, -11i8)
    }

    /// The link types that dragging changes (see `spec_link_types`).
    pub fn link_types(&self) -> (lts: Vec<i8>)
        ensures
            lts@ == self.spec_link_types(),
    {
        let mut lts: Vec<i8> = Vec::new();
        if self.t {
            lts.push(-3);
            lts.push(-4);
        }
        if self.r {
            lts.push(-2);
        }
        if self.n {
            lts.push(-1);
        }
        if self.h {
            lts.push(-6);
        }
        if self.s {
            lts.push(-7);
        }
        if self.l {
            lts.push(-8);
        }
        if self.a {
            lts.push(-9);
        }
        if self.o {
            lts.push(-12);
        }
        if self.v {
            lts.push(-11);
        }
        lts
    }
}

/// `s` with `x` added at the end when `b` holds.
pub open spec fn push_if(s: Seq<i8>, b: bool, x: i8) -> Seq<i8> {
    if b {
        s.push(x)
    } else {
        s
    }
}

proof fn lemma_push_if_contains(s: Seq<i8>, b: bool, x: i8, y: i8)
    ensures
        push_if(s, b, x).contains(y) == (s.contains(y) || (b && x == y)),
        push_if(s, b, x).len() == s.len() + (if b {
            1int
        } else {
            0int
        }),
{
    if b {
        let t = s.push(x);
        if s.contains(y) {
            let k = choose|k: int| 0 <= k < s.len() && s[k] == y;
            assert(t[k] == y);
        }
        if x == y {
            assert(t[s.len() as int] == y);
        }
        if t.contains(y) {
            let k = choose|k: int| 0 <= k < t.len() && t[k] == y;
            if k < s.len() {
                assert(s[k] == y);
            }
        }
    }
}

/// Drag modes that agree on every mode are the same.
pub proof fn lemma_modes_ext(a: DragModes, b: DragModes)
    requires
        forall|m: DragMode| #[trigger] a.has(m) == b.has(m),
    ensures
        a == b,
{
    assert(a.has(DragMode::Translation) == b.has(DragMode::Translation));
    assert(a.has(DragMode::Radius) == b.has(DragMode::Radius));
    assert(a.has(DragMode::Num) == b.has(DragMode::Num));
    assert(a.has(DragMode::Hue) == b.has(DragMode::Hue));
    assert(a.has(DragMode::Saturation) == b.has(DragMode::Saturation));
    assert(a.has(DragMode::Lightness) == b.has(DragMode::Lightness));
    assert(a.has(DragMode::Alpha) == b.has(DragMode::Alpha));
    assert(a.has(DragMode::Rotation) == b.has(DragMode::Rotation));
    assert(a.has(DragMode::Vertices) == b.has(DragMode::Vertices));
}

/// The link type a drag mode changes (translation changes x, and y too).
pub open spec fn drag_link_type(mode: DragMode) -> i8 {
    match mode {
        DragMode::Translation => -3i8,
        DragMode::Radius => -2i8,
        DragMode::Num => -1i8,
        DragMode::Hue => -6i8,
        DragMode::Saturation => -7i8,
        DragMode::Lightness => -8i8,
        DragMode::Alpha => -9i8,
        DragMode::Rotation => -12i8,
        DragMode::Vertices => -11i8,
    }
}

/// A link type is reopened by dragging exactly when the drag mode that
/// changes it is on: nothing else is reopened, and nothing dragged is
/// missed.
pub proof fn lemma_drag_link_types(modes: DragModes, mode: DragMode)
    ensures
        modes.spec_link_types().contains(drag_link_type(mode)) == modes.has(mode),
        modes.spec_link_types().contains(-4i8) == modes.t,
        modes.none() ==> modes.spec_link_types().len() == 0,
{
    let e = Seq::<i8>::empty();
    let s0 = push_if(e, modes.t, -3i8);
    let s1 = push_if(s0, modes.t, -4i8);
    let s2 = push_if(s1, modes.r, -2i8);
    let s3 = push_if(s2, modes.n, -1i8);
    let s4 = push_if(s3, modes.h, -6i8);
    let s5 = push_if(s4, modes.s, -7i8);
    let s6 = push_if(s5, modes.l, -8i8);
    let s7 = push_if(s6, modes.a, -9i8);
    let s8 = push_if(s7, modes.o, -12i8);
    let y = drag_link_type(mode);
    assert(!e.contains(y) && !e.contains(-4i8));
    lemma_push_if_contains(e, modes.t, -3i8, y);
    lemma_push_if_contains(s0, modes.t, -4i8, y);
    lemma_push_if_contains(s1, modes.r, -2i8, y);
    lemma_push_if_contains(s2, modes.n, -1i8, y);
    lemma_push_if_contains(s3, modes.h, -6i8, y);
    lemma_push_if_contains(s4, modes.s, -7i8, y);
    lemma_push_if_contains(s5, modes.l, -8i8, y);
    lemma_push_if_contains(s6, modes.a, -9i8, y);
    lemma_push_if_contains(s7, modes.o, -12i8, y);
    lemma_push_if_contains(s8, modes.v, -11i8, y);
    lemma_push_if_contains(e, modes.t, -3i8, -4i8);
    lemma_push_if_contains(s0, modes.t, -4i8, -4i8);
    lemma_push_if_contains(s1, modes.r, -2i8, -4i8);
    lemma_push_if_contains(s2, modes.n, -1i8, -4i8);
    lemma_push_if_contains(s3, modes.h, -6i8, -4i8);
    lemma_push_if_contains(s4, modes.s, -7i8, -4i8);
    lemma_push_if_contains(s5, modes.l, -8i8, -4i8);
    lemma_push_if_contains(s6, modes.a, -9i8, -4i8);
    lemma_push_if_contains(s7, modes.o, -12i8, -4i8);
    lemma_push_if_contains(s8, modes.v, -11i8, -4i8);
    if modes.none() {
        assert(!modes.has(DragMode::Translation) && !modes.has(DragMode::Radius));
        assert(!modes.has(DragMode::Num) && !modes.has(DragMode::Hue));
        assert(!modes.has(DragMode::Saturation) && !modes.has(DragMode::Lightness));
        assert(!modes.has(DragMode::Alpha) && !modes.has(DragMode::Rotation));
        assert(!modes.has(DragMode::Vertices));
    }
}

/// The vertex count after a drag of `d` whole steps in vertices mode: a
/// drag up adds `d`; a drag down takes `-d` away only where at least 3
/// vertices are left, and otherwise leaves the count as it is.
pub open spec fn vertices_after_drag(v: int, d: int) -> int {
    if d >= 1 || (d <= -1 && v + d >= 3) {
        v + d
    } else {
        v
    }
}

/// The vertex count after an arrow key in vertices mode: up adds one, down
/// takes one away but never goes below 3.
pub open spec fn vertices_after_step(v: int, up: bool) -> int {
    if up {
        v + 1
    } else if v - 1 >= 3 {
        v - 1
    } else {
        3
    }
}

/// Applies a drag of `d` whole steps to the vertex count `v`.
pub fn drag_vertices(v: usize, d: i32) -> (r: usize)
    requires
        d >= 1 ==> v + d <= usize::MAX,
    ensures
        r == vertices_after_drag(v as int, d as int),
{
    if d >= 1 {
        v + (d as usize)
    } else if d <= -1 {
        let down: usize = (-(d as i64)) as usize;
        if v >= 3 && v - 3 >= down {
            v - down
        } else {
            v
        }
    } else {
        v
    }
}

/// Applies an arrow key (up or down) to the vertex count `v`.
pub fn step_vertices(v: usize, up: bool) -> (r: usize)
    requires
        up ==> v < usize::MAX,
        !up ==> v >= 1,
    ensures
        r == vertices_after_step(v as int, up),
{
    if up {
        v + 1
    } else if v - 1 >= 3 {
        v - 1
    } else {
        3
    }
}

/// A circle keeps a polygon's shape: from at least 3 vertices, no drag and no
/// arrow key leaves it with fewer than 3.
pub proof fn lemma_vertices_stay_polygon(v: int, d: int, up: bool)
    requires
        v >= 3,
    ensures
        vertices_after_drag(v, d) >= 3,
        vertices_after_step(v, up) >= 3,
{
}

} // verus!
