use vstd::prelude::*;

use crate::arrays::{repeat, spec_repeat};
use crate::drag::{drag_link_type, DragMode, DragModes};
use crate::functions::{lt_to_string, named_link_type, spec_lt_to_string, spec_str_to_lt, str_to_lt};
use crate::ids::{spec_str_to_id, str_to_id};
use crate::text::{
    chars_of, char_is_control, eq_lit, is_control, pieces, push_char, split_at_char, starts_with,
    utf8_len, utf8_width, parse_bounded, parse_unsigned, split_tokens, strip_all_prefixes, strip_prefixes,
    tokens, trim, trim_start, trim_start_ws, trim_ws,
};

verus! {

// ---------------------------------------------------------------------------
// return-terminated commands
// ---------------------------------------------------------------------------

/// A property that `:set` and `:delta` change by a float value.
#[derive(Clone, Copy, PartialEq, Eq, Structural, Debug)]
pub enum Prop {
    Num,
    Radius,
    RadiusX,
    RadiusY,
    X,
    Y,
    Z,
    Hue,
    Saturation,
    Lightness,
    Alpha,
    Rotation,
}

/// A return-terminated command, read from one `;`-separated line. Entity
/// ids are given in their 64-bit form; a missing target means "the
/// selected entities". Numbers that are floats are passed on as their
/// text.
#[derive(Debug)]
pub enum LineCommand {
    /// Nothing to do (an unknown command, or one missing what it needs).
    Nothing,
    /// `:e {file}` open a scene file.
    OpenScene(Vec<char>),
    /// `:w {file}` save the scene to a file.
    SaveScene(Vec<char>),
    /// `:q` exit.
    Quit,
    /// `:od {host} {device} [sample rate] [block]` choose the output device.
    OutDevice(usize, usize, Option<u32>, Option<u32>),
    /// `:id {host} {device} [sample rate] [block]` choose the input device.
    InDevice(usize, usize, Option<u32>, Option<u32>),
    /// `:nl {n}` set the node limit.
    NodeLimit(usize),
    /// `:lt [id] {link type}` set the link type of a hole (or of the
    /// selected holes).
    LinkType(Option<u64>, i8),
    /// `:dv {n}` default vertices of drawn circles, as text (a float, kept
    /// in `3..=64` by `default_verts`).
    DefaultVerts(Vec<char>),
    /// `:dc [h] [s] [l] [a]` default color of drawn circles, as text.
    DefaultColor(Vec<Vec<char>>),
    /// `:ht {id}` toggle a white hole open.
    ToggleOpen(u64),
    /// `:push` an entity id onto targets.
    PushTarget(Option<u64>, u64),
    /// `:push` a number (as text) onto the array.
    PushNum(Option<u64>, Vec<char>),
    /// `:set` (false) or `:delta` (true) of a float property.
    SetValue(Prop, bool, Option<u64>, Vec<char>),
    /// `:set v` or `:delta v`, the vertices, as text (a float; see
    /// `vertices_after_set`).
    SetVertices(bool, Option<u64>, Vec<char>),
    /// `:set op` the op string.
    SetOp(Option<u64>, Vec<char>),
    /// `:set ord` or `:delta ord`, the order, as text.
    SetOrder(bool, Option<u64>, Vec<char>),
    /// `:set arr` the array, as the text of each value.
    SetArray(Option<u64>, Vec<Vec<char>>),
    /// `:set tar` the targets.
    SetTargets(Vec<u64>),
    /// `:tsel {id}` make the selected entities the targets of `id`.
    TargetSelected(u64),
    /// `:reset_bloom`
    ResetBloom,
    /// `:reset_cam`
    ResetCam,
}

/// The abstract form of a line command, with text as character sequences.
pub enum LineCommandModel {
    Nothing,
    OpenScene(Seq<char>),
    SaveScene(Seq<char>),
    Quit,
    OutDevice(usize, usize, Option<u32>, Option<u32>),
    InDevice(usize, usize, Option<u32>, Option<u32>),
    NodeLimit(usize),
    LinkType(Option<u64>, i8),
    DefaultVerts(Seq<char>),
    DefaultColor(Seq<Seq<char>>),
    ToggleOpen(u64),
    PushTarget(Option<u64>, u64),
    PushNum(Option<u64>, Seq<char>),
    SetValue(Prop, bool, Option<u64>, Seq<char>),
    SetVertices(bool, Option<u64>, Seq<char>),
    SetOp(Option<u64>, Seq<char>),
    SetOrder(bool, Option<u64>, Seq<char>),
    SetArray(Option<u64>, Seq<Seq<char>>),
    SetTargets(Seq<u64>),
    TargetSelected(u64),
    ResetBloom,
    ResetCam,
}

/// The character sequences of a vector of texts.
pub open spec fn texts(v: Seq<Vec<char>>) -> Seq<Seq<char>> {
    v.map_values(|t: Vec<char>| t@)
}

impl View for LineCommand {
    type V = LineCommandModel;

    open spec fn view(&self) -> LineCommandModel {
        match self {
            LineCommand::Nothing => LineCommandModel::Nothing,
            LineCommand::OpenScene(f) => LineCommandModel::OpenScene(f@),
            LineCommand::SaveScene(f) => LineCommandModel::SaveScene(f@),
            LineCommand::Quit => LineCommandModel::Quit,
            LineCommand::OutDevice(h, d, sr, b) => LineCommandModel::OutDevice(*h, *d, *sr, *b),
            LineCommand::InDevice(h, d, sr, b) => LineCommandModel::InDevice(*h, *d, *sr, *b),
            LineCommand::NodeLimit(n) => LineCommandModel::NodeLimit(*n),
            LineCommand::LinkType(e, lt) => LineCommandModel::LinkType(*e, *lt),
            LineCommand::DefaultVerts(n) => LineCommandModel::DefaultVerts(n@),
            LineCommand::DefaultColor(v) => LineCommandModel::DefaultColor(texts(v@)),
            LineCommand::ToggleOpen(e) => LineCommandModel::ToggleOpen(*e),
            LineCommand::PushTarget(e, t) => LineCommandModel::PushTarget(*e, *t),
            LineCommand::PushNum(e, n) => LineCommandModel::PushNum(*e, n@),
            LineCommand::SetValue(p, d, e, n) => LineCommandModel::SetValue(*p, *d, *e, n@),
            LineCommand::SetVertices(d, e, n) => LineCommandModel::SetVertices(*d, *e, n@),
            LineCommand::SetOp(e, op) => LineCommandModel::SetOp(*e, op@),
            LineCommand::SetOrder(d, e, n) => LineCommandModel::SetOrder(*d, *e, n@),
            LineCommand::SetArray(e, v) => LineCommandModel::SetArray(*e, texts(v@)),
            LineCommand::SetTargets(v) => LineCommandModel::SetTargets(v@),
            LineCommand::TargetSelected(e) => LineCommandModel::TargetSelected(*e),
            LineCommand::ResetBloom => LineCommandModel::ResetBloom,
            LineCommand::ResetCam => LineCommandModel::ResetCam,
        }
    }
}

/// Token `i` of `ts`, when there is one.
pub open spec fn tok(ts: Seq<Seq<char>>, i: int) -> Option<Seq<char>> {
    if 0 <= i < ts.len() {
        Some(ts[i])
    } else {
        None
    }
}

/// Token `i` is `lit`.
pub open spec fn tok_is(ts: Seq<Seq<char>>, i: int, lit: Seq<char>) -> bool {
    0 <= i < ts.len() && ts[i] == lit
}

/// The unsigned value of a token as a `usize`.
pub open spec fn tok_usize(t: Seq<char>) -> Option<usize> {
    match parse_bounded(t, usize::MAX as nat) {
        Some(n) => Some(n as usize),
        None => None,
    }
}

/// The unsigned value of a token as a `u32`.
pub open spec fn tok_u32(t: Seq<char>) -> Option<u32> {
    match parse_bounded(t, u32::MAX as nat) {
        Some(n) => Some(n as u32),
        None => None,
    }
}

/// The link type a token names, kept in 8 bits (wider values wrap).
pub open spec fn tok_lt(t: Seq<char>) -> i8 {
    spec_str_to_lt(t) as i8
}

/// `v` kept in `lo..=hi`.
pub open spec fn clamp_usize(v: usize, lo: usize, hi: usize) -> usize {
    if v < lo {
        lo
    } else if v > hi {
        hi
    } else {
        v
    }
}

/// The default vertex count that `:dv {n}` sets: `n` kept in `3..=64`.
pub fn default_verts(n: usize) -> (r: usize)
    ensures
        r == clamp_usize(n, 3, 64),
{
    if n < 3 {
        3
    } else if n > 64 {
        64
    } else {
        n
    }
}

/// The vertex count after `:set v {n}` (`delta` false) or `:delta v {n}`
/// (`delta` true) on a circle with `cur` vertices: `n`, or `cur + n`, and
/// never fewer than 3.
pub fn vertices_after_set(cur: usize, n: usize, delta: bool) -> (r: usize)
    requires
        delta ==> cur + n <= usize::MAX,
    ensures
        r == (if delta {
            if cur + n < 3 {
                3
            } else {
                cur + n
            }
        } else if n < 3 {
            3
        } else {
            n as int
        }),
        r >= 3,
{
    let v = if delta {
        cur + n
    } else {
        n
    };
    if v < 3 {
        3
    } else {
        v
    }
}

/// Who gets which targets on `:set tar {id id ...}`: with nothing selected,
/// the first listed entity gets the rest of the list (`Some` of it, with the
/// rest); otherwise every selected circle gets the whole list (`None`).
pub fn targets_plan(selected: &Vec<u64>, list: &Vec<u64>) -> (r: (Option<u64>, Vec<u64>))
    ensures
        selected@.len() == 0 && list@.len() > 0 ==> r.0 == Some(list@[0]) && r.1@ == list@.skip(1),
        !(selected@.len() == 0 && list@.len() > 0) ==> r.0 is None && r.1@ == list@,
{
    let mut rest: Vec<u64> = Vec::new();
    let skip: usize = if selected.len() == 0 && list.len() > 0 {
        1
    } else {
        0
    };
    let mut i: usize = skip;
    while i < list.len()
        invariant
            skip <= i <= list.len(),
            rest@ == list@.subrange(skip as int, i as int),
        decreases list.len() - i,
    {
        rest.push(list[i]);
        i += 1;
        assert(rest@ =~= list@.subrange(skip as int, i as int));
    }
    assert(list@.subrange(skip as int, i as int) =~= list@.skip(skip as int));
    if skip == 1 {
        (Some(list[0]), rest)
    } else {
        (None, rest)
    }
}

/// The float property a `:set` keyword names.
pub open spec fn prop_of(k: Seq<char>) -> Option<Prop> {
    if k == "n"@ {
        Some(Prop::Num)
    } else if k == "r"@ {
        Some(Prop::Radius)
    } else if k == "rx"@ {
        Some(Prop::RadiusX)
    } else if k == "ry"@ {
        Some(Prop::RadiusY)
    } else if k == "x"@ {
        Some(Prop::X)
    } else if k == "y"@ {
        Some(Prop::Y)
    } else if k == "z"@ {
        Some(Prop::Z)
    } else if k == "h"@ {
        Some(Prop::Hue)
    } else if k == "s"@ {
        Some(Prop::Saturation)
    } else if k == "l"@ {
        Some(Prop::Lightness)
    } else if k == "a"@ {
        Some(Prop::Alpha)
    } else if k == "o"@ || k == "rot"@ || k == "rotation"@ {
        Some(Prop::Rotation)
    } else {
        None
    }
}

/// The ids among `ts`, in order (tokens that are not ids are skipped).
pub open spec fn ids_among(ts: Seq<Seq<char>>) -> Seq<u64>
    decreases ts.len(),
{
    if ts.len() == 0 {
        Seq::empty()
    } else {
        let p = ids_among(ts.drop_last());
        match spec_str_to_id(ts.last()) {
            Some(e) => p.push(e),
            None => p,
        }
    }
}

/// What a `:set`/`:delta` line asks for; `ts` are its tokens and `line`
/// the whole line (`op` takes the rest of the line as it was typed).
pub open spec fn spec_set_command(line: Seq<char>, ts: Seq<Seq<char>>) -> LineCommandModel {
    let delta = !(ts[0] == ":set"@ || ts[0] == "set"@);
    if ts.len() < 2 {
        LineCommandModel::Nothing
    } else {
        let k = ts[1];
        match prop_of(k) {
            Some(p) => if ts.len() < 3 {
                LineCommandModel::Nothing
            } else {
                match spec_str_to_id(ts[2]) {
                    Some(e) => if ts.len() < 4 {
                        LineCommandModel::Nothing
                    } else {
                        LineCommandModel::SetValue(p, delta, Some(e), ts[3])
                    },
                    None => LineCommandModel::SetValue(p, delta, None, ts[2]),
                }
            },
            None => if k == "v"@ {
                if ts.len() < 3 {
                    LineCommandModel::Nothing
                } else {
                    match spec_str_to_id(ts[2]) {
                        Some(e) => if ts.len() < 4 {
                            LineCommandModel::Nothing
                        } else {
                            LineCommandModel::SetVertices(delta, Some(e), ts[3])
                        },
                        None => LineCommandModel::SetVertices(delta, None, ts[2]),
                    }
                }
            } else if k == "op"@ {
                if ts.len() < 3 {
                    LineCommandModel::Nothing
                } else {
                    let l = trim_ws(line);
                    let op = if l.len() > 0 && l[0] == ':' {
                        strip_prefixes(l, ":set op "@)
                    } else {
                        strip_prefixes(l, "set op "@)
                    };
                    match spec_str_to_id(ts[2]) {
                        Some(e) => LineCommandModel::SetOp(
                            Some(e),
                            trim_start_ws(strip_prefixes(op, ts[2])),
                        ),
                        None => LineCommandModel::SetOp(None, op),
                    }
                }
            } else if k == "ord"@ || k == "order"@ {
                if ts.len() < 3 {
                    LineCommandModel::Nothing
                } else {
                    match spec_str_to_id(ts[2]) {
                        Some(e) => if ts.len() < 4 {
                            LineCommandModel::Nothing
                        } else {
                            LineCommandModel::SetOrder(delta, Some(e), ts[3])
                        },
                        None => LineCommandModel::SetOrder(delta, None, ts[2]),
                    }
                }
            } else if k == "arr"@ || k == "array"@ {
                let target = if ts.len() >= 3 {
                    spec_str_to_id(ts[2])
                } else {
                    None
                };
                LineCommandModel::SetArray(target, ts.skip(2))
            } else if k == "tar"@ || k == "targets"@ {
                LineCommandModel::SetTargets(ids_among(ts.skip(2)))
            } else {
                LineCommandModel::Nothing
            },
        }
    }
}

/// What a `:push` line asks for.
pub open spec fn spec_push_command(ts: Seq<Seq<char>>) -> LineCommandModel {
    if ts.len() < 2 {
        LineCommandModel::Nothing
    } else if ts.len() >= 3 {
        match spec_str_to_id(ts[1]) {
            Some(e) => match spec_str_to_id(ts[2]) {
                Some(t) => LineCommandModel::PushTarget(Some(e), t),
                None => LineCommandModel::PushNum(Some(e), ts[2]),
            },
            None => LineCommandModel::Nothing,
        }
    } else {
        match spec_str_to_id(ts[1]) {
            Some(t) => LineCommandModel::PushTarget(None, t),
            None => LineCommandModel::PushNum(None, ts[1]),
        }
    }
}

/// What a `:od`/`:id` line asks for.
pub open spec fn spec_device_command(ts: Seq<Seq<char>>, out: bool) -> LineCommandModel {
    if ts.len() < 3 {
        LineCommandModel::Nothing
    } else {
        match (tok_usize(ts[1]), tok_usize(ts[2])) {
            (Some(h), Some(d)) => {
                let sr = if ts.len() >= 4 {
                    tok_u32(ts[3])
                } else {
                    None
                };
                let b = if ts.len() >= 5 {
                    tok_u32(ts[4])
                } else {
                    None
                };
                if out {
                    LineCommandModel::OutDevice(h, d, sr, b)
                } else {
                    LineCommandModel::InDevice(h, d, sr, b)
                }
            },
            _ => LineCommandModel::Nothing,
        }
    }
}

/// What the other (short) commands ask for.
pub open spec fn spec_simple_command(ts: Seq<Seq<char>>) -> LineCommandModel {
    let c = ts[0];
    if c == ":e"@ {
        if ts.len() >= 2 {
            LineCommandModel::OpenScene(ts[1])
        } else {
            LineCommandModel::Nothing
        }
    } else if c == ":w"@ {
        if ts.len() >= 2 {
            LineCommandModel::SaveScene(ts[1])
        } else {
            LineCommandModel::Nothing
        }
    } else if c == ":q"@ {
        LineCommandModel::Quit
    } else if c == ":nl"@ {
        if ts.len() >= 2 {
            match tok_usize(ts[1]) {
                Some(n) => LineCommandModel::NodeLimit(n),
                None => LineCommandModel::Nothing,
            }
        } else {
            LineCommandModel::Nothing
        }
    } else if c == ":lt"@ || c == "lt"@ {
        if ts.len() < 2 {
            LineCommandModel::Nothing
        } else {
            match spec_str_to_id(ts[1]) {
                Some(e) => if ts.len() >= 3 {
                    LineCommandModel::LinkType(Some(e), tok_lt(ts[2]))
                } else {
                    LineCommandModel::Nothing
                },
                None => LineCommandModel::LinkType(None, tok_lt(ts[1])),
            }
        }
    } else if c == ":dv"@ || c == "dv"@ {
        if ts.len() >= 2 {
            LineCommandModel::DefaultVerts(ts[1])
        } else {
            LineCommandModel::Nothing
        }
    } else if c == ":dc"@ || c == "dc"@ {
        LineCommandModel::DefaultColor(ts.subrange(1, if ts.len() > 5 {
            5
        } else {
            ts.len() as int
        }))
    } else if c == ":ht"@ || c == "ht"@ {
        if ts.len() >= 2 {
            match spec_str_to_id(ts[1]) {
                Some(e) => LineCommandModel::ToggleOpen(e),
                None => LineCommandModel::Nothing,
            }
        } else {
            LineCommandModel::Nothing
        }
    } else if c == ":tsel"@ {
        if ts.len() >= 2 {
            match spec_str_to_id(ts[1]) {
                Some(e) => LineCommandModel::TargetSelected(e),
                None => LineCommandModel::Nothing,
            }
        } else {
            LineCommandModel::Nothing
        }
    } else if c == ":reset_bloom"@ {
        LineCommandModel::ResetBloom
    } else if c == ":reset_cam"@ {
        LineCommandModel::ResetCam
    } else {
        LineCommandModel::Nothing
    }
}

/// What one `;`-separated line of the command line asks for.
pub open spec fn spec_line_command(line: Seq<char>) -> LineCommandModel {
    let ts = tokens(line);
    if ts.len() == 0 {
        LineCommandModel::Nothing
    } else {
        let c = ts[0];
        if c == ":od"@ {
            spec_device_command(ts, true)
        } else if c == ":id"@ {
            spec_device_command(ts, false)
        } else if c == ":push"@ || c == "push"@ {
            spec_push_command(ts)
        } else if c == ":set"@ || c == "set"@ || c == ":delta"@ || c == "delta"@ {
            spec_set_command(line, ts)
        } else {
            spec_simple_command(ts)
        }
    }
}

/// Whether token `i` spells `lit`.
fn tok_eq(ts: &Vec<Vec<char>>, i: usize, lit: &str) -> (b: bool)
    ensures
        b == (i < ts@.len() && ts@[i as int]@ == lit@),
{
    if i < ts.len() {
        eq_lit(&ts[i], lit)
    } else {
        false
    }
}

fn usize_of(t: &Vec<char>) -> (r: Option<usize>)
    ensures
        r == tok_usize(t@),
{
    match parse_unsigned(t, usize::MAX as u64) {
        Some(n) => Some(n as usize),
        None => None,
    }
}

fn u32_of(t: &Vec<char>) -> (r: Option<u32>)
    ensures
        r == tok_u32(t@),
{
    match parse_unsigned(t, u32::MAX as u64) {
        Some(n) => Some(n as u32),
        None => None,
    }
}

fn id_of(t: &Vec<char>) -> (r: Option<u64>)
    ensures
        r == spec_str_to_id(t@),
{
    let s: String = chars_to_string(t);
    str_to_id(s.as_str())
}

fn lt_of(t: &Vec<char>) -> (r: i8)
    ensures
        r == tok_lt(t@),
{
    let s: String = chars_to_string(t);
    str_to_lt(s.as_str()) as i8
}

/// A string holding the characters `v`.
pub fn chars_to_string(v: &Vec<char>) -> (s: String)
    ensures
        s@ == v@,
{
    let mut s = String::new();
    let mut i: usize = 0;
    while i < v.len()
        invariant
            i <= v@.len(),
            s@ == v@.take(i as int),
        decreases v@.len() - i,
    {
        crate::text::push_char(&mut s, v[i]);
        i = i + 1;
        assert(s@ =~= v@.take(i as int));
    }
    assert(v@.take(i as int) =~= v@);
    s
}

fn clone_chars(v: &Vec<char>) -> (r: Vec<char>)
    ensures
        r@ == v@,
{
    let mut r: Vec<char> = Vec::new();
    let mut i: usize = 0;
    while i < v.len()
        invariant
            i <= v@.len(),
            r@ == v@.take(i as int),
        decreases v@.len() - i,
    {
        r.push(v[i]);
        i = i + 1;
        assert(r@ =~= v@.take(i as int));
    }
    assert(v@.take(i as int) =~= v@);
    r
}

/// Copies of the tokens `ts[from..to]`.
fn clone_tokens(ts: &Vec<Vec<char>>, from: usize, to: usize) -> (r: Vec<Vec<char>>)
    requires
        from <= to <= ts@.len(),
    ensures
        texts(r@) == texts(ts@).subrange(from as int, to as int),
{
    let mut r: Vec<Vec<char>> = Vec::new();
    let mut i = from;
    while i < to
        invariant
            from <= i <= to <= ts@.len(),
            r@.len() == i - from,
            forall|j: int| 0 <= j < r@.len() ==> #[trigger] r@[j]@ == ts@[from + j]@,
        decreases to - i,
    {
        let t = clone_chars(&ts[i]);
        r.push(t);
        i = i + 1;
    }
    assert(texts(r@) =~= texts(ts@).subrange(from as int, to as int)) by {
        assert forall|j: int| 0 <= j < r@.len() implies #[trigger] texts(r@)[j] == texts(
            ts@,
        ).subrange(from as int, to as int)[j] by {
            assert(texts(r@)[j] == r@[j]@);
            assert(texts(ts@)[from + j] == ts@[from + j]@);
        }
    }
    r
}

fn set_command(line: &Vec<char>, ts: &Vec<Vec<char>>) -> (c: LineCommand)
    requires
        ts@.len() >= 1,
    ensures
        c@ == spec_set_command(line@, texts(ts@)),
{
    let ghost tv = texts(ts@);
    let delta = !(tok_eq(ts, 0, ":set") || tok_eq(ts, 0, "set"));
    if ts.len() < 2 {
        return LineCommand::Nothing;
    }
    let prop: Option<Prop> = if tok_eq(ts, 1, "n") {
        Some(Prop::Num)
    } else if tok_eq(ts, 1, "r") {
        Some(Prop::Radius)
    } else if tok_eq(ts, 1, "rx") {
        Some(Prop::RadiusX)
    } else if tok_eq(ts, 1, "ry") {
        Some(Prop::RadiusY)
    } else if tok_eq(ts, 1, "x") {
        Some(Prop::X)
    } else if tok_eq(ts, 1, "y") {
        Some(Prop::Y)
    } else if tok_eq(ts, 1, "z") {
        Some(Prop::Z)
    } else if tok_eq(ts, 1, "h") {
        Some(Prop::Hue)
    } else if tok_eq(ts, 1, "s") {
        Some(Prop::Saturation)
    } else if tok_eq(ts, 1, "l") {
        Some(Prop::Lightness)
    } else if tok_eq(ts, 1, "a") {
        Some(Prop::Alpha)
    } else if tok_eq(ts, 1, "o") || tok_eq(ts, 1, "rot") || tok_eq(ts, 1, "rotation") {
        Some(Prop::Rotation)
    } else {
        None
    };
    assert(prop == prop_of(tv[1]));
    match prop {
        Some(p) => {
            if ts.len() < 3 {
                return LineCommand::Nothing;
            }
            match id_of(&ts[2]) {
                Some(e) => {
                    if ts.len() < 4 {
                        LineCommand::Nothing
                    } else {
                        LineCommand::SetValue(p, delta, Some(e), clone_chars(&ts[3]))
                    }
                },
                None => LineCommand::SetValue(p, delta, None, clone_chars(&ts[2])),
            }
        },
        None => {
            if tok_eq(ts, 1, "v") {
                if ts.len() < 3 {
                    return LineCommand::Nothing;
                }
                match id_of(&ts[2]) {
                    Some(e) => {
                        if ts.len() < 4 {
                            LineCommand::Nothing
                        } else {
                            LineCommand::SetVertices(delta, Some(e), clone_chars(&ts[3]))
                        }
                    },
                    None => LineCommand::SetVertices(delta, None, clone_chars(&ts[2])),
                }
            } else if tok_eq(ts, 1, "op") {
                if ts.len() < 3 {
                    return LineCommand::Nothing;
                }
                let l = trim(line);
                let op = if l.len() > 0 && l[0] == ':' {
                    let pre = crate::text::chars_of(":set op ");
                    strip_all_prefixes(&l, &pre)
                } else {
                    let pre = crate::text::chars_of("set op ");
                    strip_all_prefixes(&l, &pre)
                };
                match id_of(&ts[2]) {
                    Some(e) => {
                        let stripped = strip_all_prefixes(&op, &ts[2]);
                        LineCommand::SetOp(Some(e), trim_start(&stripped))
                    },
                    None => LineCommand::SetOp(None, op),
                }
            } else if tok_eq(ts, 1, "ord") || tok_eq(ts, 1, "order") {
                if ts.len() < 3 {
                    return LineCommand::Nothing;
                }
                match id_of(&ts[2]) {
                    Some(e) => {
                        if ts.len() < 4 {
                            LineCommand::Nothing
                        } else {
                            LineCommand::SetOrder(delta, Some(e), clone_chars(&ts[3]))
                        }
                    },
                    None => LineCommand::SetOrder(delta, None, clone_chars(&ts[2])),
                }
            } else if tok_eq(ts, 1, "arr") || tok_eq(ts, 1, "array") {
                let target = if ts.len() >= 3 {
                    id_of(&ts[2])
                } else {
                    None
                };
                let start: usize = if ts.len() >= 2 { 2 } else { ts.len() };
                let values = clone_tokens(ts, start, ts.len());
                assert(texts(ts@).subrange(2, ts@.len() as int) =~= tv.skip(2));
                LineCommand::SetArray(target, values)
            } else if tok_eq(ts, 1, "tar") || tok_eq(ts, 1, "targets") {
                let mut ids: Vec<u64> = Vec::new();
                let mut i: usize = 2;
                assert(tv.skip(2).take(0) =~= Seq::<Seq<char>>::empty());
                while i < ts.len()
                    invariant
                        2 <= i <= ts@.len(),
                        tv == texts(ts@),
                        ids@ == ids_among(tv.skip(2).take(i - 2)),
                    decreases ts@.len() - i,
                {
                    proof {
                        assert(tv.skip(2).take(i + 1 - 2).drop_last() =~= tv.skip(2).take(i - 2));
                        assert(tv.skip(2).take(i + 1 - 2).last() == ts@[i as int]@);
                    }
                    match id_of(&ts[i]) {
                        Some(e) => ids.push(e),
                        None => {},
                    }
                    i = i + 1;
                }
                assert(tv.skip(2).take(i - 2) =~= tv.skip(2));
                LineCommand::SetTargets(ids)
            } else {
                LineCommand::Nothing
            }
        },
    }
}

fn push_command(ts: &Vec<Vec<char>>) -> (c: LineCommand)
    requires
        ts@.len() >= 1,
    ensures
        c@ == spec_push_command(texts(ts@)),
{
    if ts.len() < 2 {
        LineCommand::Nothing
    } else if ts.len() >= 3 {
        match id_of(&ts[1]) {
            Some(e) => match id_of(&ts[2]) {
                Some(t) => LineCommand::PushTarget(Some(e), t),
                None => LineCommand::PushNum(Some(e), clone_chars(&ts[2])),
            },
            None => LineCommand::Nothing,
        }
    } else {
        match id_of(&ts[1]) {
            Some(t) => LineCommand::PushTarget(None, t),
            None => LineCommand::PushNum(None, clone_chars(&ts[1])),
        }
    }
}

fn device_command(ts: &Vec<Vec<char>>, out: bool) -> (c: LineCommand)
    requires
        ts@.len() >= 1,
    ensures
        c@ == spec_device_command(texts(ts@), out),
{
    if ts.len() < 3 {
        return LineCommand::Nothing;
    }
    match (usize_of(&ts[1]), usize_of(&ts[2])) {
        (Some(h), Some(d)) => {
            let sr = if ts.len() >= 4 {
                u32_of(&ts[3])
            } else {
                None
            };
            let b = if ts.len() >= 5 {
                u32_of(&ts[4])
            } else {
                None
            };
            if out {
                LineCommand::OutDevice(h, d, sr, b)
            } else {
                LineCommand::InDevice(h, d, sr, b)
            }
        },
        _ => LineCommand::Nothing,
    }
}

fn simple_command(ts: &Vec<Vec<char>>) -> (c: LineCommand)
    requires
        ts@.len() >= 1,
    ensures
        c@ == spec_simple_command(texts(ts@)),
{
    if tok_eq(ts, 0, ":e") {
        if ts.len() >= 2 {
            LineCommand::OpenScene(clone_chars(&ts[1]))
        } else {
            LineCommand::Nothing
        }
    } else if tok_eq(ts, 0, ":w") {
        if ts.len() >= 2 {
            LineCommand::SaveScene(clone_chars(&ts[1]))
        } else {
            LineCommand::Nothing
        }
    } else if tok_eq(ts, 0, ":q") {
        LineCommand::Quit
    } else if tok_eq(ts, 0, ":nl") {
        if ts.len() >= 2 {
            match usize_of(&ts[1]) {
                Some(n) => LineCommand::NodeLimit(n),
                None => LineCommand::Nothing,
            }
        } else {
            LineCommand::Nothing
        }
    } else if tok_eq(ts, 0, ":lt") || tok_eq(ts, 0, "lt") {
        if ts.len() < 2 {
            LineCommand::Nothing
        } else {
            match id_of(&ts[1]) {
                Some(e) => if ts.len() >= 3 {
                    LineCommand::LinkType(Some(e), lt_of(&ts[2]))
                } else {
                    LineCommand::Nothing
                },
                None => LineCommand::LinkType(None, lt_of(&ts[1])),
            }
        }
    } else if tok_eq(ts, 0, ":dv") || tok_eq(ts, 0, "dv") {
        if ts.len() >= 2 {
            LineCommand::DefaultVerts(clone_chars(&ts[1]))
        } else {
            LineCommand::Nothing
        }
    } else if tok_eq(ts, 0, ":dc") || tok_eq(ts, 0, "dc") {
        let end = if ts.len() > 5 {
            5
        } else {
            ts.len()
        };
        let v = clone_tokens(ts, 1, end);
        LineCommand::DefaultColor(v)
    } else if tok_eq(ts, 0, ":ht") || tok_eq(ts, 0, "ht") {
        if ts.len() >= 2 {
            match id_of(&ts[1]) {
                Some(e) => LineCommand::ToggleOpen(e),
                None => LineCommand::Nothing,
            }
        } else {
            LineCommand::Nothing
        }
    } else if tok_eq(ts, 0, ":tsel") {
        if ts.len() >= 2 {
            match id_of(&ts[1]) {
                Some(e) => LineCommand::TargetSelected(e),
                None => LineCommand::Nothing,
            }
        } else {
            LineCommand::Nothing
        }
    } else if tok_eq(ts, 0, ":reset_bloom") {
        LineCommand::ResetBloom
    } else if tok_eq(ts, 0, ":reset_cam") {
        LineCommand::ResetCam
    } else {
        LineCommand::Nothing
    }
}

/// Reads one `;`-separated line of the command line into the command it
/// asks for.
pub fn line_command(line: &Vec<char>) -> (c: LineCommand)
    ensures
        c@ == spec_line_command(line@),
{
    let ts = split_tokens(line);
    assert(texts(ts@) == tokens(line@));
    if ts.len() == 0 {
        return LineCommand::Nothing;
    }
    if tok_eq(&ts, 0, ":od") {
        device_command(&ts, true)
    } else if tok_eq(&ts, 0, ":id") {
        device_command(&ts, false)
    } else if tok_eq(&ts, 0, ":push") || tok_eq(&ts, 0, "push") {
        push_command(&ts)
    } else if tok_eq(&ts, 0, ":set") || tok_eq(&ts, 0, "set") || tok_eq(&ts, 0, ":delta") || tok_eq(
        &ts,
        0,
        "delta",
    ) {
        set_command(line, &ts)
    } else {
        simple_command(&ts)
    }
}

// ---------------------------------------------------------------------------
// immediate (key) commands
// ---------------------------------------------------------------------------

/// What an inspect command shows of the selected entities.
#[derive(Clone, Copy, PartialEq, Eq, Structural, Debug)]
pub enum Inspect {
    Ids,
    Num,
    Radius,
    X,
    Y,
    Z,
    Hue,
    Saturation,
    Lightness,
    Alpha,
    Vertices,
    Rotation,
    Order,
    Op,
    Array,
    Holes,
    Targets,
    LinkType,
    Open,
}

/// A selection command.
#[derive(Clone, Copy, PartialEq, Eq, Structural, Debug)]
pub enum Selection {
    /// `sa`
    All,
    /// `sA`
    Nothing,
    /// `sc`
    Circles,
    /// `sh`
    Holes,
    /// `sn` how many are selected
    Count,
    /// `sg` the holes of the selected circles
    HolesOfSelected,
    /// `sC`
    DeselectCircles,
    /// `sH`
    DeselectHoles,
    /// `st` the targets of the selected circles
    Targets,
    /// `sv`
    Visible,
    /// `sV`
    DeselectVisible,
}

/// A visibility command.
#[derive(Clone, Copy, PartialEq, Eq, Structural, Debug)]
pub enum Visibility {
    /// `vv` show all
    All,
    /// `vc`
    Circles,
    /// `vb`
    BlackHoles,
    /// `vw`
    WhiteHoles,
    /// `va`
    Arrows,
    /// `vt`
    InfoTexts,
    /// `vT`
    InfoIds,
}

/// An immediate command: one that runs as soon as its text is typed.
#[derive(Clone, Copy, PartialEq, Eq, Structural, Debug)]
pub enum KeyCommand {
    /// `d` draw mode
    Draw,
    /// `c` connect mode
    Connect,
    /// `e?` drag only this property
    DragOnly(DragMode),
    /// `ee` drag nothing
    DragNone,
    /// `E?` drag this property too
    DragAdd(DragMode),
    /// `ht` toggle the selected white holes open
    ToggleOpen,
    /// `o` shortcut for `:set op `
    OpShortcut,
    /// `l` shortcut for `:lt `
    LinkTypeShortcut,
    /// `]`
    OrderUp,
    /// `[`
    OrderDown,
    /// `}`
    LinkTypeUp,
    /// `{`
    LinkTypeDown,
    /// `ni`
    NodeInputs,
    /// `no`
    NodeOutputs,
    /// `np`
    NodeInfo,
    /// `ah`
    AudioHosts,
    /// `ao`
    OutputDevices,
    /// `ai`
    InputDevices,
    /// `i?` inspect commands
    Inspect(Inspect),
    /// `s?` selection commands
    Select(Selection),
    /// `v?` visibility commands
    Show(Visibility),
    /// `yy`, `"+y`
    Copy,
    /// `p`, `"+p`
    Paste,
    /// `:delete`
    Delete,
    /// `:help`, `:about`, `help`, `about`
    Help,
    /// `version`, `:version`
    Version,
    /// `quartz`
    Quartz,
    /// `awa`
    Awa,
}

/// The drag mode letter of `e?` and `E?` commands.
pub open spec fn drag_letter(c: char) -> Option<DragMode> {
    if c == 't' {
        Some(DragMode::Translation)
    } else if c == 'r' {
        Some(DragMode::Radius)
    } else if c == 'n' {
        Some(DragMode::Num)
    } else if c == 'h' {
        Some(DragMode::Hue)
    } else if c == 's' {
        Some(DragMode::Saturation)
    } else if c == 'l' {
        Some(DragMode::Lightness)
    } else if c == 'a' {
        Some(DragMode::Alpha)
    } else if c == 'o' {
        Some(DragMode::Rotation)
    } else if c == 'v' {
        Some(DragMode::Vertices)
    } else {
        None
    }
}

/// The drag commands: `e` or `E` followed by a drag mode letter, and `ee`.
pub open spec fn spec_drag_command(t: Seq<char>) -> Option<KeyCommand> {
    if t.len() != 2 {
        None
    } else if t == "ee"@ {
        Some(KeyCommand::DragNone)
    } else if t[0] == 'e' {
        match drag_letter(t[1]) {
            Some(m) => Some(KeyCommand::DragOnly(m)),
            None => None,
        }
    } else if t[0] == 'E' {
        match drag_letter(t[1]) {
            Some(m) => Some(KeyCommand::DragAdd(m)),
            None => None,
        }
    } else {
        None
    }
}

/// The inspect commands.
pub open spec fn spec_inspect_command(t: Seq<char>) -> Option<Inspect> {
    if t == "ii"@ {
        Some(Inspect::Ids)
    } else if t == "in"@ {
        Some(Inspect::Num)
    } else if t == "ira"@ {
        Some(Inspect::Radius)
    } else if t == "ix"@ {
        Some(Inspect::X)
    } else if t == "iy"@ {
        Some(Inspect::Y)
    } else if t == "iz"@ {
        Some(Inspect::Z)
    } else if t == "ihu"@ {
        Some(Inspect::Hue)
    } else if t == "is"@ {
        Some(Inspect::Saturation)
    } else if t == "il"@ {
        Some(Inspect::Lightness)
    } else if t == "ial"@ {
        Some(Inspect::Alpha)
    } else if t == "iv"@ {
        Some(Inspect::Vertices)
    } else if t == "iro"@ {
        Some(Inspect::Rotation)
    } else if t == "ior"@ {
        Some(Inspect::Order)
    } else if t == "iop"@ {
        Some(Inspect::Op)
    } else if t == "iar"@ {
        Some(Inspect::Array)
    } else if t == "iho"@ {
        Some(Inspect::Holes)
    } else if t == "it"@ {
        Some(Inspect::Targets)
    } else if t == "iL"@ {
        Some(Inspect::LinkType)
    } else if t == "iO"@ {
        Some(Inspect::Open)
    } else {
        None
    }
}

/// The selection and visibility commands.
pub open spec fn spec_select_command(t: Seq<char>) -> Option<KeyCommand> {
    if t == "sa"@ {
        Some(KeyCommand::Select(Selection::All))
    } else if t == "sA"@ {
        Some(KeyCommand::Select(Selection::Nothing))
    } else if t == "sc"@ {
        Some(KeyCommand::Select(Selection::Circles))
    } else if t == "sh"@ {
        Some(KeyCommand::Select(Selection::Holes))
    } else if t == "sn"@ {
        Some(KeyCommand::Select(Selection::Count))
    } else if t == "sg"@ {
        Some(KeyCommand::Select(Selection::HolesOfSelected))
    } else if t == "sC"@ {
        Some(KeyCommand::Select(Selection::DeselectCircles))
    } else if t == "sH"@ {
        Some(KeyCommand::Select(Selection::DeselectHoles))
    } else if t == "st"@ {
        Some(KeyCommand::Select(Selection::Targets))
    } else if t == "sv"@ {
        Some(KeyCommand::Select(Selection::Visible))
    } else if t == "sV"@ {
        Some(KeyCommand::Select(Selection::DeselectVisible))
    } else if t == "vv"@ {
        Some(KeyCommand::Show(Visibility::All))
    } else if t == "vc"@ {
        Some(KeyCommand::Show(Visibility::Circles))
    } else if t == "vb"@ {
        Some(KeyCommand::Show(Visibility::BlackHoles))
    } else if t == "vw"@ {
        Some(KeyCommand::Show(Visibility::WhiteHoles))
    } else if t == "va"@ {
        Some(KeyCommand::Show(Visibility::Arrows))
    } else if t == "vt"@ {
        Some(KeyCommand::Show(Visibility::InfoTexts))
    } else if t == "vT"@ {
        Some(KeyCommand::Show(Visibility::InfoIds))
    } else {
        None
    }
}

/// The remaining immediate commands.
pub open spec fn spec_other_command(t: Seq<char>) -> Option<KeyCommand> {
    if t == "d"@ {
        Some(KeyCommand::Draw)
    } else if t == "c"@ {
        Some(KeyCommand::Connect)
    } else if t == "ht"@ {
        Some(KeyCommand::ToggleOpen)
    } else if t == "o"@ {
        Some(KeyCommand::OpShortcut)
    } else if t == "l"@ {
        Some(KeyCommand::LinkTypeShortcut)
    } else if t == "]"@ {
        Some(KeyCommand::OrderUp)
    } else if t == "["@ {
        Some(KeyCommand::OrderDown)
    } else if t == "}"@ {
        Some(KeyCommand::LinkTypeUp)
    } else if t == "{"@ {
        Some(KeyCommand::LinkTypeDown)
    } else if t == "ni"@ {
        Some(KeyCommand::NodeInputs)
    } else if t == "no"@ {
        Some(KeyCommand::NodeOutputs)
    } else if t == "np"@ {
        Some(KeyCommand::NodeInfo)
    } else if t == "ah"@ {
        Some(KeyCommand::AudioHosts)
    } else if t == "ao"@ {
        Some(KeyCommand::OutputDevices)
    } else if t == "ai"@ {
        Some(KeyCommand::InputDevices)
    } else if t == "yy"@ || t == "\"+y"@ {
        Some(KeyCommand::Copy)
    } else if t == "p"@ || t == "\"+p"@ {
        Some(KeyCommand::Paste)
    } else if t == ":delete"@ {
        Some(KeyCommand::Delete)
    } else if t == ":help"@ || t == ":about"@ || t == "about"@ || t == "help"@ {
        Some(KeyCommand::Help)
    } else if t == "version"@ || t == ":version"@ {
        Some(KeyCommand::Version)
    } else if t == "quartz"@ {
        Some(KeyCommand::Quartz)
    } else if t == "awa"@ {
        Some(KeyCommand::Awa)
    } else {
        None
    }
}

/// The immediate command a token names, if any.
pub open spec fn spec_key_command(t: Seq<char>) -> Option<KeyCommand> {
    match spec_other_command(t) {
        Some(k) => Some(k),
        None => match spec_drag_command(t) {
            Some(k) => Some(k),
            None => match spec_inspect_command(t) {
                Some(i) => Some(KeyCommand::Inspect(i)),
                None => spec_select_command(t),
            },
        },
    }
}

/// The immediate command that the command line text names: its first
/// token decides.
pub open spec fn spec_text_key_command(text: Seq<char>) -> Option<KeyCommand> {
    let ts = tokens(text);
    if ts.len() == 0 {
        None
    } else {
        spec_key_command(ts[0])
    }
}

fn drag_letter_of(c: char) -> (r: Option<DragMode>)
    ensures
        r == drag_letter(c),
{
    if c == 't' {
        Some(DragMode::Translation)
    } else if c == 'r' {
        Some(DragMode::Radius)
    } else if c == 'n' {
        Some(DragMode::Num)
    } else if c == 'h' {
        Some(DragMode::Hue)
    } else if c == 's' {
        Some(DragMode::Saturation)
    } else if c == 'l' {
        Some(DragMode::Lightness)
    } else if c == 'a' {
        Some(DragMode::Alpha)
    } else if c == 'o' {
        Some(DragMode::Rotation)
    } else if c == 'v' {
        Some(DragMode::Vertices)
    } else {
        None
    }
}

fn drag_command(t: &Vec<char>) -> (r: Option<KeyCommand>)
    ensures
        r == spec_drag_command(t@),
{
    if t.len() != 2 {
        None
    } else if eq_lit(t, "ee") {
        Some(KeyCommand::DragNone)
    } else if t[0] == 'e' {
        match drag_letter_of(t[1]) {
            Some(m) => Some(KeyCommand::DragOnly(m)),
            None => None,
        }
    } else if t[0] == 'E' {
        match drag_letter_of(t[1]) {
            Some(m) => Some(KeyCommand::DragAdd(m)),
            None => None,
        }
    } else {
        None
    }
}

fn inspect_command(t: &Vec<char>) -> (r: Option<Inspect>)
    ensures
        r == spec_inspect_command(t@),
{
    if eq_lit(t, "ii") {
        Some(Inspect::Ids)
    } else if eq_lit(t, "in") {
        Some(Inspect::Num)
    } else if eq_lit(t, "ira") {
        Some(Inspect::Radius)
    } else if eq_lit(t, "ix") {
        Some(Inspect::X)
    } else if eq_lit(t, "iy") {
        Some(Inspect::Y)
    } else if eq_lit(t, "iz") {
        Some(Inspect::Z)
    } else if eq_lit(t, "ihu") {
        Some(Inspect::Hue)
    } else if eq_lit(t, "is") {
        Some(Inspect::Saturation)
    } else if eq_lit(t, "il") {
        Some(Inspect::Lightness)
    } else if eq_lit(t, "ial") {
        Some(Inspect::Alpha)
    } else if eq_lit(t, "iv") {
        Some(Inspect::Vertices)
    } else if eq_lit(t, "iro") {
        Some(Inspect::Rotation)
    } else if eq_lit(t, "ior") {
        Some(Inspect::Order)
    } else if eq_lit(t, "iop") {
        Some(Inspect::Op)
    } else if eq_lit(t, "iar") {
        Some(Inspect::Array)
    } else if eq_lit(t, "iho") {
        Some(Inspect::Holes)
    } else if eq_lit(t, "it") {
        Some(Inspect::Targets)
    } else if eq_lit(t, "iL") {
        Some(Inspect::LinkType)
    } else if eq_lit(t, "iO") {
        Some(Inspect::Open)
    } else {
        None
    }
}

fn select_command(t: &Vec<char>) -> (r: Option<KeyCommand>)
    ensures
        r == spec_select_command(t@),
{
    if eq_lit(t, "sa") {
        Some(KeyCommand::Select(Selection::All))
    } else if eq_lit(t, "sA") {
        Some(KeyCommand::Select(Selection::Nothing))
    } else if eq_lit(t, "sc") {
        Some(KeyCommand::Select(Selection::Circles))
    } else if eq_lit(t, "sh") {
        Some(KeyCommand::Select(Selection::Holes))
    } else if eq_lit(t, "sn") {
        Some(KeyCommand::Select(Selection::Count))
    } else if eq_lit(t, "sg") {
        Some(KeyCommand::Select(Selection::HolesOfSelected))
    } else if eq_lit(t, "sC") {
        Some(KeyCommand::Select(Selection::DeselectCircles))
    } else if eq_lit(t, "sH") {
        Some(KeyCommand::Select(Selection::DeselectHoles))
    } else if eq_lit(t, "st") {
        Some(KeyCommand::Select(Selection::Targets))
    } else if eq_lit(t, "sv") {
        Some(KeyCommand::Select(Selection::Visible))
    } else if eq_lit(t, "sV") {
        Some(KeyCommand::Select(Selection::DeselectVisible))
    } else if eq_lit(t, "vv") {
        Some(KeyCommand::Show(Visibility::All))
    } else if eq_lit(t, "vc") {
        Some(KeyCommand::Show(Visibility::Circles))
    } else if eq_lit(t, "vb") {
        Some(KeyCommand::Show(Visibility::BlackHoles))
    } else if eq_lit(t, "vw") {
        Some(KeyCommand::Show(Visibility::WhiteHoles))
    } else if eq_lit(t, "va") {
        Some(KeyCommand::Show(Visibility::Arrows))
    } else if eq_lit(t, "vt") {
        Some(KeyCommand::Show(Visibility::InfoTexts))
    } else if eq_lit(t, "vT") {
        Some(KeyCommand::Show(Visibility::InfoIds))
    } else {
        None
    }
}

fn other_command(t: &Vec<char>) -> (r: Option<KeyCommand>)
    ensures
        r == spec_other_command(t@),
{
    if eq_lit(t, "d") {
        Some(KeyCommand::Draw)
    } else if eq_lit(t, "c") {
        Some(KeyCommand::Connect)
    } else if eq_lit(t, "ht") {
        Some(KeyCommand::ToggleOpen)
    } else if eq_lit(t, "o") {
        Some(KeyCommand::OpShortcut)
    } else if eq_lit(t, "l") {
        Some(KeyCommand::LinkTypeShortcut)
    } else if eq_lit(t, "]") {
        Some(KeyCommand::OrderUp)
    } else if eq_lit(t, "[") {
        Some(KeyCommand::OrderDown)
    } else if eq_lit(t, "}") {
        Some(KeyCommand::LinkTypeUp)
    } else if eq_lit(t, "{") {
        Some(KeyCommand::LinkTypeDown)
    } else if eq_lit(t, "ni") {
        Some(KeyCommand::NodeInputs)
    } else if eq_lit(t, "no") {
        Some(KeyCommand::NodeOutputs)
    } else if eq_lit(t, "np") {
        Some(KeyCommand::NodeInfo)
    } else if eq_lit(t, "ah") {
        Some(KeyCommand::AudioHosts)
    } else if eq_lit(t, "ao") {
        Some(KeyCommand::OutputDevices)
    } else if eq_lit(t, "ai") {
        Some(KeyCommand::InputDevices)
    } else if eq_lit(t, "yy") || eq_lit(t, "\"+y") {
        Some(KeyCommand::Copy)
    } else if eq_lit(t, "p") || eq_lit(t, "\"+p") {
        Some(KeyCommand::Paste)
    } else if eq_lit(t, ":delete") {
        Some(KeyCommand::Delete)
    } else if eq_lit(t, ":help") || eq_lit(t, ":about") || eq_lit(t, "about") || eq_lit(
        t,
        "help",
    ) {
        Some(KeyCommand::Help)
    } else if eq_lit(t, "version") || eq_lit(t, ":version") {
        Some(KeyCommand::Version)
    } else if eq_lit(t, "quartz") {
        Some(KeyCommand::Quartz)
    } else if eq_lit(t, "awa") {
        Some(KeyCommand::Awa)
    } else {
        None
    }
}

/// The immediate command a token names, if any.
pub fn key_command(t: &Vec<char>) -> (r: Option<KeyCommand>)
    ensures
        r == spec_key_command(t@),
{
    match other_command(t) {
        Some(k) => Some(k),
        None => match drag_command(t) {
            Some(k) => Some(k),
            None => match inspect_command(t) {
                Some(i) => Some(KeyCommand::Inspect(i)),
                None => select_command(t),
            },
        },
    }
}

/// The immediate command that the command line text names, by its first
/// token.
pub fn text_key_command(text: &Vec<char>) -> (r: Option<KeyCommand>)
    ensures
        r == spec_text_key_command(text@),
{
    let ts = split_tokens(text);
    assert(texts(ts@) == tokens(text@));
    if ts.len() == 0 {
        None
    } else {
        assert(texts(ts@)[0] == ts@[0]@);
        key_command(&ts[0])
    }
}


proof fn lemma_set_line_value(line: Seq<char>)
    requires
        ({
            let ts = tokens(line);
            ts.len() >= 4 && (ts[0] == ":set"@ || ts[0] == "set"@ || ts[0] == ":delta"@
                || ts[0] == "delta"@) && prop_of(ts[1]) is Some
        }),
    ensures
        ({
            let ts = tokens(line);
            spec_line_command(line) matches LineCommandModel::SetValue(p, d, _, _) && p == prop_of(
                ts[1],
            )->0 && d == !(ts[0] == ":set"@ || ts[0] == "set"@)
        }),
{
    reveal_strlit(":od");
    reveal_strlit(":id");
    reveal_strlit(":push");
    reveal_strlit("push");
    reveal_strlit(":set");
    reveal_strlit("set");
    reveal_strlit(":delta");
    reveal_strlit("delta");
    let ts = tokens(line);
    let c = ts[0];
    assert(c.len() == 3 || c.len() == 4 || c.len() == 5 || c.len() == 6);
    assert(c.len() == 4 ==> (c[0] == ':' || c[0] == 'd'));
    assert("push"@[0] == 'p');
    assert(c != ":od"@ && c != ":id"@ && c != ":push"@) by {
        if c == ":od"@ || c == ":id"@ {
            assert(c.len() == 3 && c[0] == ':');
        }
        if c == ":push"@ {
            assert(c[1] == 'p');
        }
    }
    assert(c != "push"@) by {
        if c == "push"@ {
            assert(c[0] == 'p');
        }
    }
    assert(spec_line_command(line) == spec_set_command(line, ts));
    let p = prop_of(ts[1])->0;
    let delta = !(ts[0] == ":set"@ || ts[0] == "set"@);
    match spec_str_to_id(ts[2]) {
        Some(e) => assert(spec_set_command(line, ts) == LineCommandModel::SetValue(p, delta, Some(e), ts[3])),
        None => assert(spec_set_command(line, ts) == LineCommandModel::SetValue(p, delta, None, ts[2])),
    }
}

proof fn lemma_prop_keywords()
    ensures
        prop_of("n"@) == Some(Prop::Num),
        prop_of("r"@) == Some(Prop::Radius),
        prop_of("rx"@) == Some(Prop::RadiusX),
        prop_of("ry"@) == Some(Prop::RadiusY),
        prop_of("x"@) == Some(Prop::X),
        prop_of("y"@) == Some(Prop::Y),
        prop_of("z"@) == Some(Prop::Z),
        prop_of("h"@) == Some(Prop::Hue),
        prop_of("s"@) == Some(Prop::Saturation),
        prop_of("l"@) == Some(Prop::Lightness),
        prop_of("a"@) == Some(Prop::Alpha),
        prop_of("o"@) == Some(Prop::Rotation),
        prop_of("rot"@) == Some(Prop::Rotation),
        prop_of("rotation"@) == Some(Prop::Rotation),
{
    reveal_strlit("n");
    reveal_strlit("r");
    reveal_strlit("rx");
    reveal_strlit("ry");
    reveal_strlit("x");
    reveal_strlit("y");
    reveal_strlit("z");
    reveal_strlit("h");
    reveal_strlit("s");
    reveal_strlit("l");
    reveal_strlit("a");
    reveal_strlit("o");
    reveal_strlit("rot");
    reveal_strlit("rotation");
    assert("n"@[0] == 'n');
    assert("r"@[0] == 'r');
    assert("rx"@.len() == 2 && "r"@.len() == 1);
    assert("rx"@ != "r"@);
    assert("rx"@[0] == 'r');
    assert("rx"@[1] == 'x');
    assert("ry"@.len() == 2);
    assert("ry"@ != "r"@);
    assert("ry"@ != "rx"@) by {
        assert("ry"@[1] != "rx"@[1]);
    }
    assert("ry"@[0] == 'r');
    assert("ry"@[1] == 'y');
    assert("x"@[0] == 'x');
    assert("y"@[0] == 'y');
    assert("z"@[0] == 'z');
    assert("h"@[0] == 'h');
    assert("s"@[0] == 's');
    assert("l"@[0] == 'l');
    assert("a"@[0] == 'a');
    assert("o"@[0] == 'o');
    assert("rot"@[0] == 'r');
    assert("rot"@[1] == 'o');
    assert("rotation"@[0] == 'r');
    assert("rotation"@[1] == 'o');
}

/// The keyword of a `:set` or `:delta` line names the property it changes,
/// as the README lists them: `n` the number, `r` the radius (`rx`, `ry` one
/// axis of it), `x` `y` `z` the position, `h` the hue, `s` the saturation,
/// `l` the lightness, `a` the alpha and `o` (`rot`, `rotation`) the rotation.
/// `:set` sets the value and `:delta` adds to it.
pub proof fn lemma_set_keyword_names_property(line: Seq<char>)
    ensures
        ({
            let ts = tokens(line);
            let delta = ts.len() > 0 && (ts[0] == ":delta"@ || ts[0] == "delta"@);
            ts.len() >= 4 && (ts[0] == ":set"@ || ts[0] == "set"@ || ts[0] == ":delta"@
                || ts[0] == "delta"@) ==> {
                &&& ts[1] == "n"@ ==> (spec_line_command(line) matches LineCommandModel::SetValue(p, d, _, _)
                    && p == Prop::Num && d == delta)
                &&& ts[1] == "r"@ ==> (spec_line_command(line) matches LineCommandModel::SetValue(p, d, _, _)
                    && p == Prop::Radius && d == delta)
                &&& ts[1] == "rx"@ ==> (spec_line_command(line) matches LineCommandModel::SetValue(p, d, _, _)
                    && p == Prop::RadiusX && d == delta)
                &&& ts[1] == "ry"@ ==> (spec_line_command(line) matches LineCommandModel::SetValue(p, d, _, _)
                    && p == Prop::RadiusY && d == delta)
                &&& ts[1] == "x"@ ==> (spec_line_command(line) matches LineCommandModel::SetValue(p, d, _, _)
                    && p == Prop::X && d == delta)
                &&& ts[1] == "y"@ ==> (spec_line_command(line) matches LineCommandModel::SetValue(p, d, _, _)
                    && p == Prop::Y && d == delta)
                &&& ts[1] == "z"@ ==> (spec_line_command(line) matches LineCommandModel::SetValue(p, d, _, _)
                    && p == Prop::Z && d == delta)
                &&& ts[1] == "h"@ ==> (spec_line_command(line) matches LineCommandModel::SetValue(p, d, _, _)
                    && p == Prop::Hue && d == delta)
                &&& ts[1] == "s"@ ==> (spec_line_command(line) matches LineCommandModel::SetValue(p, d, _, _)
                    && p == Prop::Saturation && d == delta)
                &&& ts[1] == "l"@ ==> (spec_line_command(line) matches LineCommandModel::SetValue(p, d, _, _)
                    && p == Prop::Lightness && d == delta)
                &&& ts[1] == "a"@ ==> (spec_line_command(line) matches LineCommandModel::SetValue(p, d, _, _)
                    && p == Prop::Alpha && d == delta)
                &&& ts[1] == "o"@ ==> (spec_line_command(line) matches LineCommandModel::SetValue(p, d, _, _)
                    && p == Prop::Rotation && d == delta)
                &&& ts[1] == "rot"@ ==> (spec_line_command(line) matches LineCommandModel::SetValue(p, d, _, _)
                    && p == Prop::Rotation && d == delta)
                &&& ts[1] == "rotation"@ ==> (spec_line_command(line) matches LineCommandModel::SetValue(p, d, _, _)
                    && p == Prop::Rotation && d == delta)
            }
        }),
{
    let ts = tokens(line);
    reveal_strlit(":set");
    reveal_strlit("set");
    reveal_strlit(":delta");
    reveal_strlit("delta");
    lemma_prop_keywords();
    assert(":set"@.len() == 4 && "set"@.len() == 3 && ":delta"@.len() == 6 && "delta"@.len() == 5);
    if ts.len() >= 4 && (ts[0] == ":set"@ || ts[0] == "set"@ || ts[0] == ":delta"@ || ts[0] == "delta"@) {
        if prop_of(ts[1]) is Some {
            lemma_set_line_value(line);
        }
    }
}

proof fn lemma_single_chars(c: char, d: char)
    ensures
        (seq![c] == seq![d]) == (c == d),
{
    if seq![c] == seq![d] {
        assert(seq![c][0] == seq![d][0]);
    }
}

proof fn lemma_drag_token_not_other(t: Seq<char>)
    requires
        t.len() == 2,
        t[0] == 'e' || t[0] == 'E',
        t[1] != 'e',
    ensures
        spec_other_command(t) is None,
        spec_drag_command(t) == (if t[0] == 'e' {
            match drag_letter(t[1]) {
                Some(m) => Some(KeyCommand::DragOnly(m)),
                None => None,
            }
        } else {
            match drag_letter(t[1]) {
                Some(m) => Some(KeyCommand::DragAdd(m)),
                None => None,
            }
        }),
{
    reveal_strlit("d");
    reveal_strlit("c");
    reveal_strlit("ht");
    reveal_strlit("o");
    reveal_strlit("l");
    reveal_strlit("]");
    reveal_strlit("[");
    reveal_strlit("}");
    reveal_strlit("{");
    reveal_strlit("ni");
    reveal_strlit("no");
    reveal_strlit("np");
    reveal_strlit("ah");
    reveal_strlit("ao");
    reveal_strlit("ai");
    reveal_strlit("yy");
    reveal_strlit("\"+y");
    reveal_strlit("p");
    reveal_strlit("\"+p");
    reveal_strlit(":delete");
    reveal_strlit(":help");
    reveal_strlit(":about");
    reveal_strlit("about");
    reveal_strlit("help");
    reveal_strlit("version");
    reveal_strlit(":version");
    reveal_strlit("quartz");
    reveal_strlit("awa");
    reveal_strlit("ee");
    assert("ht"@[0] == 'h' && "ni"@[0] == 'n' && "no"@[0] == 'n' && "np"@[0] == 'n');
    assert("ah"@[0] == 'a' && "ao"@[0] == 'a' && "ai"@[0] == 'a' && "yy"@[0] == 'y');
    assert("ee"@[1] == 'e');
    assert(t != "ht"@ && t != "ni"@ && t != "no"@ && t != "np"@) by {
        if t == "ht"@ || t == "ni"@ || t == "no"@ || t == "np"@ {
            assert(t[0] == 'h' || t[0] == 'n');
        }
    }
    assert(t != "ah"@ && t != "ao"@ && t != "ai"@ && t != "yy"@ && t != "ee"@) by {
        if t == "ah"@ || t == "ao"@ || t == "ai"@ || t == "yy"@ {
            assert(t[0] == 'a' || t[0] == 'y');
        }
        if t == "ee"@ {
            assert(t[1] == 'e');
        }
    }
}

/// The drag mode a letter names drags the property that the same letter
/// names as a link type (`h` the hue, `s` the saturation, `l` the lightness,
/// `a` the alpha, `n` the number, `r` the radius, `o` the rotation, `v` the
/// vertices), and `t` drags the position: typing `e` and the letter drags
/// that property alone, `E` and the letter adds it to what is dragged.
pub proof fn lemma_drag_letters_name_properties(c: char)
    requires
        c == 't' || c == 'r' || c == 'n' || c == 'h' || c == 's' || c == 'l' || c == 'a' || c
            == 'o' || c == 'v',
    ensures
        spec_key_command(seq!['e', c]) matches Some(KeyCommand::DragOnly(m)) && (c == 't'
            ==> m == DragMode::Translation) && (c != 't' ==> drag_link_type(m) == named_link_type(
            seq![c],
        )),
        spec_key_command(seq!['E', c]) matches Some(KeyCommand::DragAdd(m)) && (c == 't'
            ==> m == DragMode::Translation) && (c != 't' ==> drag_link_type(m) == named_link_type(
            seq![c],
        )),
{
    lemma_drag_token_not_other(seq!['e', c]);
    lemma_drag_token_not_other(seq!['E', c]);
    lemma_single_chars(c, 'n');
    lemma_single_chars(c, 'r');
    lemma_single_chars(c, 'x');
    lemma_single_chars(c, 'y');
    lemma_single_chars(c, 'z');
    lemma_single_chars(c, 'h');
    lemma_single_chars(c, 's');
    lemma_single_chars(c, 'l');
    lemma_single_chars(c, 'a');
    lemma_single_chars(c, 'v');
    lemma_single_chars(c, 'o');
}

} // verus!
