use vstd::prelude::*;

use crate::arrays::{repeat, spec_repeat};
use crate::commands::{
    line_command, spec_line_command, spec_text_key_command, text_key_command, KeyCommand,
    LineCommand, LineCommandModel, Selection,
};
use crate::drag::{DragMode, DragModes};
use crate::functions::{lt_to_string, spec_lt_to_string, spec_str_to_lt, str_to_lt};
use crate::text::{
    char_is_control, chars_of, eq_lit, is_control, lemma_pieces_join, lemma_pieces_single,
    lemma_tokens_push_ws, lemma_trim_push_tab, pieces, push_char, split_at_char, starts_with,
    utf8_len, utf8_width,
};

verus! {

/// The interaction mode.
#[derive(Clone, Copy, PartialEq, Eq, Structural, Debug)]
pub enum Mode {
    Draw,
    Connect,
    Edit,
}

/// A pressed key, as the command line reads it.
pub enum Key {
    /// A key that types text (its text).
    Character(Vec<char>),
    Space,
    Backspace,
    Escape,
    Enter,
    /// Any other key.
    Other,
}

/// The abstract form of a pressed key.
pub enum KeyModel {
    Character(Seq<char>),
    Space,
    Backspace,
    Escape,
    Enter,
    Other,
}

impl View for Key {
    type V = KeyModel;

    open spec fn view(&self) -> KeyModel {
        match self {
            Key::Character(c) => KeyModel::Character(c@),
            Key::Space => KeyModel::Space,
            Key::Backspace => KeyModel::Backspace,
            Key::Escape => KeyModel::Escape,
            Key::Enter => KeyModel::Enter,
            Key::Other => KeyModel::Other,
        }
    }
}

/// The abstract forms of a sequence of keys.
pub open spec fn keys_view(keys: Seq<Key>) -> Seq<KeyModel> {
    keys.map_values(|k: Key| k@)
}

/// The state of held and just-pressed keys that the command line looks at
/// in one frame.
#[derive(Clone, Copy)]
pub struct Held {
    /// Escape or E was just pressed.
    pub escape_or_e: bool,
    /// C was just pressed.
    pub c: bool,
    /// T is held down.
    pub t_held: bool,
    /// T was just pressed.
    pub t: bool,
    /// D was just pressed.
    pub d: bool,
    /// Delete was just pressed.
    pub delete: bool,
}

/// The command line: its text, the link types that connect mode uses, and
/// the drag modes.
pub struct CommandLine {
    pub text: Vec<char>,
    pub default_lt: (i8, i8),
    pub drag: DragModes,
}

/// What the command line leaves for the rest of the program to do.
pub enum Action {
    /// Delete the selection (the delete key).
    DeleteSelected,
    /// Run a return-terminated command.
    Line(LineCommand),
    /// Run an immediate command (its state changes are already made).
    Key(KeyCommand),
    /// Drop the remaining key events of this frame.
    ClearKeyEvents,
}

/// The abstract form of an action.
pub enum ActionModel {
    DeleteSelected,
    Line(LineCommandModel),
    Key(KeyCommand),
    ClearKeyEvents,
}

impl View for Action {
    type V = ActionModel;

    open spec fn view(&self) -> ActionModel {
        match self {
            Action::DeleteSelected => ActionModel::DeleteSelected,
            Action::Line(c) => ActionModel::Line(c@),
            Action::Key(k) => ActionModel::Key(*k),
            Action::ClearKeyEvents => ActionModel::ClearKeyEvents,
        }
    }
}

/// The abstract forms of a sequence of actions.
pub open spec fn actions_view(a: Seq<Action>) -> Seq<ActionModel> {
    a.map_values(|x: Action| x@)
}

/// The abstract state of the command line.
pub struct LineState {
    pub text: Seq<char>,
    pub default_lt: (i8, i8),
    pub drag: DragModes,
}

impl CommandLine {
    pub open spec fn state(self) -> LineState {
        LineState { text: self.text@, default_lt: self.default_lt, drag: self.drag }
    }
}

/// What one frame of the command line does: its new state, the mode to
/// switch to (if any) and the actions it leaves to the program.
pub struct Outcome {
    pub state: LineState,
    pub next_mode: Option<Mode>,
    pub actions: Seq<ActionModel>,
}

// ---------------------------------------------------------------------------
// edit mode typing
// ---------------------------------------------------------------------------

/// What one pressed key does to the text in edit mode: a character key types
/// its first character (a text shown with a leading `>` is cleared first; a
/// control character, or a frozen `F` text, types nothing), space types a
/// single space between words, backspace deletes, escape clears, and enter
/// ends the text with a tab, which runs it.
pub open spec fn spec_type_key(text: Seq<char>, key: KeyModel) -> Seq<char> {
    match key {
        KeyModel::Character(c) => if c.len() == 0 {
            text
        } else {
            let t = if text.len() > 0 && text[0] == '>' {
                Seq::empty()
            } else {
                text
            };
            if !is_control(c[0]) && t != "F"@ {
                t.push(c[0])
            } else {
                t
            }
        },
        KeyModel::Space => if !(text.len() > 0 && text.last() == ' ') && text.len() > 0 && text
            != "F"@ {
            text.push(' ')
        } else {
            text
        },
        KeyModel::Backspace => if text.len() > 0 {
            text.drop_last()
        } else {
            text
        },
        KeyModel::Escape => Seq::empty(),
        KeyModel::Enter => text.push('\t'),
        KeyModel::Other => text,
    }
}

/// The text after typing all of `keys`, in order.
pub open spec fn spec_type_keys(text: Seq<char>, keys: Seq<KeyModel>) -> Seq<char>
    decreases keys.len(),
{
    if keys.len() == 0 {
        text
    } else {
        spec_type_key(spec_type_keys(text, keys.drop_last()), keys.last())
    }
}

/// Types one pressed key into the text (edit mode).
pub fn type_key(text: &mut Vec<char>, key: &Key)
    ensures
        final(text)@ == spec_type_key(old(text)@, key@),
{
    match key {
        Key::Character(c) => {
            if c.len() > 0 {
                let ch = c[0];
                if text.len() > 0 && text[0] == '>' {
                    text.clear();
                }
                if !char_is_control(ch) && !eq_lit(text, "F") {
                    text.push(ch);
                }
            }
        },
        Key::Space => {
            let ends_space = text.len() > 0 && text[text.len() - 1] == ' ';
            if !ends_space && text.len() > 0 && !eq_lit(text, "F") {
                text.push(' ');
            }
        },
        Key::Backspace => {
            text.pop();
        },
        Key::Escape => {
            text.clear();
        },
        Key::Enter => {
            text.push('\t');
        },
        Key::Other => {},
    }
}

// ---------------------------------------------------------------------------
// texts shown on the command line
// ---------------------------------------------------------------------------

/// The text shown in connect mode: the link types a new connection gets.
pub open spec fn connect_banner(lt: (i8, i8)) -> Seq<char> {
    "-- CONNECT -- ("@ + spec_lt_to_string(lt.0 as int) + " "@ + spec_lt_to_string(lt.1 as int)
        + ")"@
}

/// The text of the `quartz` command.
pub open spec fn quartz_text() -> Seq<char> {
    "> never gonna give you up\nnever gonna let you down\nnever gonna run around and desert you\nnever gonna make you cry\nnever gonna say goodbye\nnever gonna tell a lie and hurt you"@
}

/// The text of the `awa` command: `>` and then sixty lines of a hundred
/// `aw`s.
pub open spec fn awa_text() -> Seq<char> {
    ">"@ + spec_repeat(spec_repeat("aw"@, 100) + "\n"@, 60)
}

fn append_str(text: &mut Vec<char>, s: &str)
    ensures
        final(text)@ == old(text)@ + s@,
{
    let mut v = chars_of(s);
    text.append(&mut v);
}

fn append_string(text: &mut Vec<char>, s: &String)
    ensures
        final(text)@ == old(text)@ + s@,
{
    append_str(text, s.as_str());
}

fn banner(lt: (i8, i8)) -> (t: Vec<char>)
    ensures
        t@ == connect_banner(lt),
{
    let mut t = chars_of("-- CONNECT -- (");
    append_string(&mut t, &lt_to_string(lt.0 as i32));
    append_str(&mut t, " ");
    append_string(&mut t, &lt_to_string(lt.1 as i32));
    append_str(&mut t, ")");
    t
}

fn awa() -> (t: Vec<char>)
    ensures
        t@ == awa_text(),
{
    let aw = chars_of("aw");
    proof {
        reveal_strlit("aw");
        reveal_strlit("\n");
    }
    let mut line = repeat(&aw, 100);
    append_str(&mut line, "\n");
    let body = repeat(&line, 60);
    let mut t = chars_of(">");
    let mut b = body;
    t.append(&mut b);
    t
}

// ---------------------------------------------------------------------------
// immediate commands
// ---------------------------------------------------------------------------

/// How an immediate command changes the command line state and the mode:
/// `d` and `c` switch modes and say so, the drag commands set the drag
/// modes, `o` and `l` leave a command started, `quartz` and `awa` show their
/// texts, and the commands that act on the scene (`ht`, the order and link
/// type steps, selection, visibility, copy, paste, delete) clear the text.
/// The commands that show information leave the text for the program to
/// fill.
pub open spec fn spec_run_key_command(s: LineState, k: KeyCommand) -> (LineState, Option<Mode>) {
    (
        LineState { text: spec_key_text(s.text, k), drag: spec_key_drag(s.drag, k), ..s },
        spec_key_mode(k),
    )
}

/// The mode an immediate command switches to.
pub open spec fn spec_key_mode(k: KeyCommand) -> Option<Mode> {
    match k {
        KeyCommand::Draw => Some(Mode::Draw),
        KeyCommand::Connect => Some(Mode::Connect),
        _ => None,
    }
}

/// The drag modes after an immediate command.
pub open spec fn spec_key_drag(d: DragModes, k: KeyCommand) -> DragModes {
    match k {
        KeyCommand::DragOnly(m) => only_mode(m),
        KeyCommand::DragNone => no_modes(),
        KeyCommand::DragAdd(m) => with_mode(d, m),
        _ => d,
    }
}

/// The text after an immediate command.
pub open spec fn spec_key_text(t: Seq<char>, k: KeyCommand) -> Seq<char> {
    match k {
        KeyCommand::Draw => "-- DRAW --"@,
        KeyCommand::Connect => "-- CONNECT --"@,
        KeyCommand::OpShortcut => ":set op "@,
        KeyCommand::LinkTypeShortcut => ":lt "@,
        KeyCommand::Quartz => quartz_text(),
        KeyCommand::Awa => awa_text(),
        KeyCommand::DragOnly(_) | KeyCommand::DragNone | KeyCommand::DragAdd(_)
        | KeyCommand::ToggleOpen | KeyCommand::OrderUp | KeyCommand::OrderDown
        | KeyCommand::LinkTypeUp | KeyCommand::LinkTypeDown | KeyCommand::Show(_)
        | KeyCommand::Copy | KeyCommand::Paste | KeyCommand::Delete => Seq::empty(),
        KeyCommand::Select(sel) => if sel == Selection::Count {
            t
        } else {
            Seq::empty()
        },
        _ => t,
    }
}

/// The drag modes with only `m` on.
pub open spec fn only_mode(m: DragMode) -> DragModes {
    with_mode(no_modes(), m)
}

/// The drag modes with none on.
pub open spec fn no_modes() -> DragModes {
    DragModes { t: false, r: false, n: false, h: false, s: false, l: false, a: false, o: false, v: false }
}

/// `d` with `m` turned on too.
pub open spec fn with_mode(d: DragModes, m: DragMode) -> DragModes {
    match m {
        DragMode::Translation => DragModes { t: true, ..d },
        DragMode::Radius => DragModes { r: true, ..d },
        DragMode::Num => DragModes { n: true, ..d },
        DragMode::Hue => DragModes { h: true, ..d },
        DragMode::Saturation => DragModes { s: true, ..d },
        DragMode::Lightness => DragModes { l: true, ..d },
        DragMode::Alpha => DragModes { a: true, ..d },
        DragMode::Rotation => DragModes { o: true, ..d },
        DragMode::Vertices => DragModes { v: true, ..d },
    }
}

/// Whether the program still has work to do for an immediate command (all
/// but the mode switches, drag commands, shortcuts, `quartz` and `awa`).
pub open spec fn needs_program(k: KeyCommand) -> bool {
    match k {
        KeyCommand::Draw | KeyCommand::Connect | KeyCommand::DragOnly(_) | KeyCommand::DragNone
        | KeyCommand::DragAdd(_) | KeyCommand::OpShortcut | KeyCommand::LinkTypeShortcut
        | KeyCommand::Quartz | KeyCommand::Awa => false,
        _ => true,
    }
}

fn key_text(t: &mut Vec<char>, k: KeyCommand)
    ensures
        final(t)@ == spec_key_text(old(t)@, k),
{
    match k {
        KeyCommand::Draw => {
            *t = chars_of("-- DRAW --");
        },
        KeyCommand::Connect => {
            *t = chars_of("-- CONNECT --");
        },
        KeyCommand::OpShortcut => {
            *t = chars_of(":set op ");
        },
        KeyCommand::LinkTypeShortcut => {
            *t = chars_of(":lt ");
        },
        KeyCommand::Quartz => {
            *t = chars_of(
                "> never gonna give you up\nnever gonna let you down\nnever gonna run around and desert you\nnever gonna make you cry\nnever gonna say goodbye\nnever gonna tell a lie and hurt you",
            );
        },
        KeyCommand::Awa => {
            *t = awa();
        },
        KeyCommand::DragOnly(_) | KeyCommand::DragNone | KeyCommand::DragAdd(_)
        | KeyCommand::ToggleOpen | KeyCommand::OrderUp | KeyCommand::OrderDown
        | KeyCommand::LinkTypeUp | KeyCommand::LinkTypeDown | KeyCommand::Show(_)
        | KeyCommand::Copy | KeyCommand::Paste | KeyCommand::Delete => {
            t.clear();
        },
        KeyCommand::Select(sel) => {
            if sel != Selection::Count {
                t.clear();
            }
        },
        _ => {},
    }
}

fn key_drag(d: &mut DragModes, k: KeyCommand)
    ensures
        *final(d) == spec_key_drag(*old(d), k),
{
    match k {
        KeyCommand::DragOnly(m) => {
            d.only(m);
            proof {
                crate::drag::lemma_modes_ext(*d, only_mode(m));
            }
        },
        KeyCommand::DragNone => {
            d.falsify();
            proof {
                crate::drag::lemma_modes_ext(*d, no_modes());
            }
        },
        KeyCommand::DragAdd(m) => {
            d.add(m);
            proof {
                crate::drag::lemma_modes_ext(*d, with_mode(*old(d), m));
            }
        },
        _ => {},
    }
}

impl CommandLine {
    /// Makes the command line state changes of an immediate command, and
    /// gives the mode it switches to.
    pub fn run_key_command(&mut self, k: KeyCommand) -> (m: Option<Mode>)
        ensures
            (final(self).state(), m) == spec_run_key_command(old(self).state(), k),
    {
        key_text(&mut self.text, k);
        key_drag(&mut self.drag, k);
        match k {
            KeyCommand::Draw => Some(Mode::Draw),
            KeyCommand::Connect => Some(Mode::Connect),
            _ => None,
        }
    }
}

// ---------------------------------------------------------------------------
// one frame of the command line
// ---------------------------------------------------------------------------

/// `v` begins with `p`.
pub open spec fn has_prefix(v: Seq<char>, p: Seq<char>) -> bool {
    p.len() <= v.len() && v.take(p.len() as int) == p
}

/// One key of link type entry in connect mode: the first character typed
/// after `-- LT --> ` sets the link type of the black hole end, the second
/// that of the white hole end and returns to the connect text. Only a
/// one-byte first character leaves room for a second.
pub open spec fn spec_lt_entry(s: LineState, key: KeyModel) -> LineState {
    match key {
        KeyModel::Character(c) => if utf8_len(s.text) == 10 {
            LineState {
                text: s.text + c,
                default_lt: (spec_str_to_lt(c) as i8, s.default_lt.1),
                ..s
            }
        } else if utf8_len(s.text) == 11 {
            LineState {
                text: "-- CONNECT --"@,
                default_lt: (s.default_lt.0, spec_str_to_lt(c) as i8),
                ..s
            }
        } else {
            s
        },
        _ => s,
    }
}

/// Link type entry over all of `keys`, in order.
pub open spec fn spec_lt_entries(s: LineState, keys: Seq<KeyModel>) -> LineState
    decreases keys.len(),
{
    if keys.len() == 0 {
        s
    } else {
        spec_lt_entry(spec_lt_entries(s, keys.drop_last()), keys.last())
    }
}

/// A frame in draw mode: escape or `e` goes back to edit mode (clearing the
/// text and the rest of the key events), `c` goes to connect mode.
pub open spec fn spec_draw_frame(s: LineState, held: Held) -> Outcome {
    let o = if held.escape_or_e {
        Outcome {
            state: LineState { text: Seq::empty(), ..s },
            next_mode: Some(Mode::Edit),
            actions: seq![ActionModel::ClearKeyEvents],
        }
    } else {
        Outcome { state: s, next_mode: None, actions: Seq::empty() }
    };
    if held.c {
        Outcome {
            state: LineState { text: "-- CONNECT --"@, ..o.state },
            next_mode: Some(Mode::Connect),
            ..o
        }
    } else {
        o
    }
}

/// A frame in connect mode: `c` starts link type entry, which then reads
/// typed characters; otherwise the text shows the link types (unless `t` is
/// held), escape or `e` goes back to edit mode, `t` shows the target text,
/// and `d` goes to draw mode.
pub open spec fn spec_connect_frame(s: LineState, held: Held, keys: Seq<KeyModel>) -> Outcome {
    if has_prefix(s.text, "-- CONNECT"@) && held.c {
        Outcome {
            state: LineState { text: "-- LT --> "@, ..s },
            next_mode: None,
            actions: Seq::empty(),
        }
    } else if has_prefix(s.text, "-- LT --> "@) {
        Outcome { state: spec_lt_entries(s, keys), next_mode: None, actions: Seq::empty() }
    } else {
        let t1 = if !held.t_held {
            connect_banner(s.default_lt)
        } else {
            s.text
        };
        let o2 = if held.escape_or_e {
            Outcome {
                state: LineState { text: Seq::empty(), ..s },
                next_mode: Some(Mode::Edit),
                actions: seq![ActionModel::ClearKeyEvents],
            }
        } else {
            Outcome { state: LineState { text: t1, ..s }, next_mode: None, actions: Seq::empty() }
        };
        let o3 = if held.t {
            Outcome { state: LineState { text: "-- TARGET --"@, ..o2.state }, ..o2 }
        } else {
            o2
        };
        if held.d {
            Outcome {
                state: LineState { text: "-- DRAW --"@, ..o3.state },
                next_mode: Some(Mode::Draw),
                ..o3
            }
        } else {
            o3
        }
    }
}

/// The commands that a run text (ending with a tab) asks for, one per
/// `;`-separated line.
pub open spec fn line_actions(lines: Seq<Seq<char>>) -> Seq<ActionModel> {
    lines.map_values(|l: Seq<char>| ActionModel::Line(spec_line_command(l)))
}

/// A command line ended by enter (a tab) asks for the same as the command
/// alone.
proof fn lemma_line_command_tab(c: Seq<char>)
    ensures
        spec_line_command(c.push('\t')) == spec_line_command(c),
{
    lemma_tokens_push_ws(c, '\t');
    lemma_trim_push_tab(c);
}

/// Commands joined by `;` run as if entered one after another: entering
/// `c1;c2` asks for the commands of entering `c1` and then those of entering
/// `c2`, in that order.
pub proof fn lemma_joined_commands(c1: Seq<char>, c2: Seq<char>)
    requires
        !c1.contains(';'),
        !c2.contains(';'),
    ensures
        line_actions(pieces(c1 + seq![';'] + c2.push('\t'), ';')) == line_actions(
            pieces(c1.push('\t'), ';'),
        ) + line_actions(pieces(c2.push('\t'), ';')),
{
    let t2 = c2.push('\t');
    let t1 = c1.push('\t');
    assert(!t2.contains(';')) by {
        if t2.contains(';') {
            let k = choose|k: int| 0 <= k < t2.len() && t2[k] == ';';
            if k < c2.len() {
                assert(c2[k] == ';');
            }
        }
    }
    assert(!t1.contains(';')) by {
        if t1.contains(';') {
            let k = choose|k: int| 0 <= k < t1.len() && t1[k] == ';';
            if k < c1.len() {
                assert(c1[k] == ';');
            }
        }
    }
    lemma_pieces_join(c1, t2, ';');
    lemma_pieces_single(c1, ';');
    lemma_pieces_single(t1, ';');
    lemma_pieces_single(t2, ';');
    lemma_line_command_tab(c1);
    assert(line_actions(seq![c1].push(t2)) =~= line_actions(seq![t1]) + line_actions(seq![t2]));
}

/// A frame in edit mode: delete asks for the selection to be deleted;
/// otherwise the pressed keys are typed, a text ending with a tab (enter)
/// runs each of its `;`-separated lines as a command and is cleared, and a
/// text whose first token names an immediate command runs it.
pub open spec fn spec_edit_frame(s: LineState, held: Held, keys: Seq<KeyModel>) -> Outcome {
    if held.delete {
        Outcome { state: s, next_mode: None, actions: seq![ActionModel::DeleteSelected] }
    } else {
        let t1 = spec_type_keys(s.text, keys);
        let ran = t1.len() > 0 && t1.last() == '\t';
        let a1 = if ran {
            line_actions(pieces(t1, ';'))
        } else {
            Seq::empty()
        };
        let s2 = LineState {
            text: if ran {
                Seq::empty()
            } else {
                t1
            },
            ..s
        };
        match spec_text_key_command(s2.text) {
            Some(k) => {
                let (s3, m) = spec_run_key_command(s2, k);
                Outcome {
                    state: s3,
                    next_mode: m,
                    actions: if needs_program(k) {
                        a1.push(ActionModel::Key(k))
                    } else {
                        a1
                    },
                }
            },
            None => Outcome { state: s2, next_mode: None, actions: a1 },
        }
    }
}

/// One frame of the command line in the given mode.
pub open spec fn spec_frame(s: LineState, mode: Mode, held: Held, keys: Seq<KeyModel>) -> Outcome {
    match mode {
        Mode::Draw => spec_draw_frame(s, held),
        Mode::Connect => spec_connect_frame(s, held, keys),
        Mode::Edit => spec_edit_frame(s, held, keys),
    }
}

proof fn lemma_utf8_len_prefix(t: Seq<char>, i: int)
    requires
        0 <= i <= t.len(),
    ensures
        utf8_len(t.take(i)) <= utf8_len(t),
    decreases t.len() - i,
{
    if i < t.len() {
        lemma_utf8_len_prefix(t, i + 1);
        assert(t.take(i + 1).drop_last() =~= t.take(i));
    } else {
        assert(t.take(i) =~= t);
    }
}

/// Whether a text takes exactly `k` bytes in UTF-8.
fn utf8_len_is(t: &Vec<char>, k: usize) -> (r: bool)
    requires
        k <= 0x100,
    ensures
        r == (utf8_len(t@) == k),
{
    let mut n: usize = 0;
    let mut i: usize = 0;
    while i < t.len()
        invariant
            i <= t@.len(),
            k <= 0x100,
            n == utf8_len(t@.take(i as int)),
            n <= k,
        decreases t@.len() - i,
    {
        let c = t[i];
        let u = c as u32;
        let w: usize = if u < 0x80 {
            1
        } else if u < 0x800 {
            2
        } else if u < 0x10000 {
            3
        } else {
            4
        };
        proof {
            assert(t@.take(i + 1).drop_last() =~= t@.take(i as int));
        }
        n = n + w;
        i = i + 1;
        if n > k {
            proof {
                lemma_utf8_len_prefix(t@, i as int);
            }
            return false;
        }
    }
    assert(t@.take(i as int) =~= t@);
    n == k
}

impl CommandLine {
    /// One frame of the command line: reads the held keys and the pressed
    /// keys of the frame in the given mode, updates the text, link types and
    /// drag modes, and gives the mode to switch to and the actions left for
    /// the program, in order.
    pub fn frame(&mut self, mode: Mode, held: Held, keys: &Vec<Key>) -> (r: (
        Option<Mode>,
        Vec<Action>,
    ))
        ensures
            ({
                let o = spec_frame(old(self).state(), mode, held, keys_view(keys@));
                &&& final(self).state() == o.state
                &&& r.0 == o.next_mode
                &&& actions_view(r.1@) == o.actions
            }),
    {
        match mode {
            Mode::Draw => self.draw_frame(held),
            Mode::Connect => self.connect_frame(held, keys),
            Mode::Edit => self.edit_frame(held, keys),
        }
    }

    fn draw_frame(&mut self, held: Held) -> (r: (Option<Mode>, Vec<Action>))
        ensures
            ({
                let o = spec_draw_frame(old(self).state(), held);
                &&& final(self).state() == o.state
                &&& r.0 == o.next_mode
                &&& actions_view(r.1@) == o.actions
            }),
    {
        let mut next: Option<Mode> = None;
        let mut actions: Vec<Action> = Vec::new();
        if held.escape_or_e {
            self.text.clear();
            next = Some(Mode::Edit);
            actions.push(Action::ClearKeyEvents);
        }
        if held.c {
            self.text = chars_of("-- CONNECT --");
            next = Some(Mode::Connect);
        }
        assert(actions_view(actions@) =~= spec_draw_frame(old(self).state(), held).actions);
        (next, actions)
    }

    fn connect_frame(&mut self, held: Held, keys: &Vec<Key>) -> (r: (Option<Mode>, Vec<Action>))
        ensures
            ({
                let o = spec_connect_frame(old(self).state(), held, keys_view(keys@));
                &&& final(self).state() == o.state
                &&& r.0 == o.next_mode
                &&& actions_view(r.1@) == o.actions
            }),
    {
        let mut actions: Vec<Action> = Vec::new();
        let connect_pre = chars_of("-- CONNECT");
        let lt_pre = chars_of("-- LT --> ");
        if starts_with(&self.text, &connect_pre) && held.c {
            self.text = chars_of("-- LT --> ");
            assert(actions_view(actions@) =~= Seq::<ActionModel>::empty());
            return (None, actions);
        }
        if starts_with(&self.text, &lt_pre) {
            let ghost kv = keys_view(keys@);
            let mut i: usize = 0;
            while i < keys.len()
                invariant
                    i <= keys@.len(),
                    kv == keys_view(keys@),
                    self.state() == spec_lt_entries(old(self).state(), kv.take(i as int)),
                decreases keys@.len() - i,
            {
                proof {
                    assert(kv.take(i + 1).drop_last() =~= kv.take(i as int));
                    assert(kv.take(i + 1).last() == keys@[i as int]@);
                }
                match &keys[i] {
                    Key::Character(c) => {
                        if utf8_len_is(&self.text, 10) {
                            let s = chars_to_string_local(c);
                            self.default_lt = (str_to_lt(s.as_str()) as i8, self.default_lt.1);
                            let mut cc = clone_local(c);
                            self.text.append(&mut cc);
                        } else if utf8_len_is(&self.text, 11) {
                            let s = chars_to_string_local(c);
                            self.default_lt = (self.default_lt.0, str_to_lt(s.as_str()) as i8);
                            self.text = chars_of("-- CONNECT --");
                            proof {
                                reveal_strlit("-- CONNECT --");
                            }
                        }
                    },
                    _ => {},
                }
                i = i + 1;
            }
            assert(kv.take(i as int) =~= kv);
            assert(actions_view(actions@) =~= Seq::<ActionModel>::empty());
            return (None, actions);
        }
        let mut next: Option<Mode> = None;
        if !held.t_held {
            self.text = banner(self.default_lt);
        }
        if held.escape_or_e {
            self.text.clear();
            next = Some(Mode::Edit);
            actions.push(Action::ClearKeyEvents);
        }
        if held.t {
            self.text = chars_of("-- TARGET --");
        }
        if held.d {
            self.text = chars_of("-- DRAW --");
            next = Some(Mode::Draw);
        }
        assert(actions_view(actions@) =~= spec_connect_frame(
            old(self).state(),
            held,
            keys_view(keys@),
        ).actions);
        (next, actions)
    }

    fn edit_frame(&mut self, held: Held, keys: &Vec<Key>) -> (r: (Option<Mode>, Vec<Action>))
        ensures
            ({
                let o = spec_edit_frame(old(self).state(), held, keys_view(keys@));
                &&& final(self).state() == o.state
                &&& r.0 == o.next_mode
                &&& actions_view(r.1@) == o.actions
            }),
    {
        let mut actions: Vec<Action> = Vec::new();
        if held.delete {
            actions.push(Action::DeleteSelected);
            assert(actions_view(actions@) =~= seq![ActionModel::DeleteSelected]);
            return (None, actions);
        }
        let ghost kv = keys_view(keys@);
        let mut i: usize = 0;
        while i < keys.len()
            invariant
                i <= keys@.len(),
                kv == keys_view(keys@),
                self.text@ == spec_type_keys(old(self).text@, kv.take(i as int)),
                self.default_lt == old(self).default_lt,
                self.drag == old(self).drag,
                actions@.len() == 0,
            decreases keys@.len() - i,
        {
            proof {
                assert(kv.take(i + 1).drop_last() =~= kv.take(i as int));
                assert(kv.take(i + 1).last() == keys@[i as int]@);
            }
            type_key(&mut self.text, &keys[i]);
            i = i + 1;
        }
        assert(kv.take(i as int) =~= kv);
        let ghost t1 = self.text@;
        let ran = self.text.len() > 0 && self.text[self.text.len() - 1] == '\t';
        if ran {
            let lines = split_at_char(&self.text, ';');
            let ghost ls = lines@.map_values(|t: Vec<char>| t@);
            let mut j: usize = 0;
            while j < lines.len()
                invariant
                    j <= lines@.len(),
                    ls == lines@.map_values(|t: Vec<char>| t@),
                    actions@.len() == j,
                    actions_view(actions@) == line_actions(ls.take(j as int)),
                decreases lines@.len() - j,
            {
                let c = line_command(&lines[j]);
                let ghost before = actions@;
                actions.push(Action::Line(c));
                j = j + 1;
                proof {
                    assert(ls[j - 1] == lines@[j - 1]@);
                    assert forall|x: int| 0 <= x < actions@.len() implies #[trigger] actions_view(
                        actions@,
                    )[x] == line_actions(ls.take(j as int))[x] by {
                        assert(actions_view(actions@)[x] == actions@[x]@);
                        if x < before.len() {
                            assert(actions@[x] == before[x]);
                            assert(actions_view(before)[x] == line_actions(ls.take(j - 1))[x]);
                        } else {
                            assert(ls.take(j as int)[x] == ls[j - 1]);
                            assert(line_actions(ls.take(j as int))[x] == ActionModel::Line(
                                spec_line_command(ls[j - 1]),
                            ));
                        }
                    }
                    assert(actions_view(actions@) =~= line_actions(ls.take(j as int)));
                }
            }
            assert(ls.take(j as int) =~= ls);
            self.text.clear();
        } else {
            assert(actions_view(actions@) =~= Seq::<ActionModel>::empty());
        }
        let ghost a1 = actions_view(actions@);
        match text_key_command(&self.text) {
            Some(k) => {
                let m = self.run_key_command(k);
                let needs = match k {
                    KeyCommand::Draw | KeyCommand::Connect | KeyCommand::DragOnly(_)
                    | KeyCommand::DragNone | KeyCommand::DragAdd(_) | KeyCommand::OpShortcut
                    | KeyCommand::LinkTypeShortcut | KeyCommand::Quartz | KeyCommand::Awa => false,
                    _ => true,
                };
                if needs {
                    actions.push(Action::Key(k));
                    assert(actions_view(actions@) =~= a1.push(ActionModel::Key(k)));
                }
                (m, actions)
            },
            None => (None, actions),
        }
    }
}

fn chars_to_string_local(v: &Vec<char>) -> (s: String)
    ensures
        s@ == v@,
{
    crate::commands::chars_to_string(v)
}

fn clone_local(v: &Vec<char>) -> (r: Vec<char>)
    ensures
        r@ == v@,
{
    let mut r: Vec<char> = Vec::new();
    let mut i: usize = 0;
    while i < v.len()
        invariant
            i <= v@.len(),
            r@ == v@.take(i as int),
        decreases v@.len() - i,
    {
        r.push(v[i]);
        i = i + 1;
        assert(r@ =~= v@.take(i as int));
    }
    assert(v@.take(i as int) =~= v@);
    r
}

} // verus!
