use quartz::command_line::{Action, CommandLine, Held, Key, Mode};
use quartz::commands::{
    default_verts, key_command, line_command, targets_plan, text_key_command, vertices_after_set,
    Inspect, KeyCommand, LineCommand, Prop, Selection, Visibility,
};
use quartz::drag::{DragMode, DragModes};

fn cs(s: &str) -> Vec<char> {
    s.chars().collect()
}

fn text(v: &[char]) -> String {
    v.iter().collect()
}

fn typed(s: &str) -> Vec<Key> {
    s.chars().map(|c| if c == ' ' { Key::Space } else { Key::Character(vec![c]) }).collect()
}

fn no_keys() -> Held {
    Held { escape_or_e: false, c: false, t_held: false, t: false, d: false, delete: false }
}

fn line() -> CommandLine {
    CommandLine { text: Vec::new(), default_lt: (0, 0), drag: DragModes::default() }
}

#[test]
fn line_set_num_of_entity() {
    match line_command(&cs(":set n 4v1 42")) {
        LineCommand::SetValue(Prop::Num, false, Some(e), v) => {
            assert_eq!(e, (1u64 << 32) | 4);
            assert_eq!(text(&v), "42");
        }
        other => panic!("{:?}", other),
    }
}

#[test]
fn line_set_num_of_selection() {
    match line_command(&cs(":set n 42")) {
        LineCommand::SetValue(Prop::Num, false, None, v) => assert_eq!(text(&v), "42"),
        other => panic!("{:?}", other),
    }
    match line_command(&cs(":delta rx -1.5")) {
        LineCommand::SetValue(Prop::RadiusX, true, None, v) => assert_eq!(text(&v), "-1.5"),
        other => panic!("{:?}", other),
    }
}

#[test]
fn line_set_vertices_and_order() {
    match line_command(&cs(":set v 6")) {
        LineCommand::SetVertices(false, None, v) => assert_eq!(text(&v), "6"),
        other => panic!("{:?}", other),
    }
    match line_command(&cs(":set v 4.5")) {
        LineCommand::SetVertices(false, None, v) => assert_eq!(text(&v), "4.5"),
        other => panic!("{:?}", other),
    }
    match line_command(&cs(":delta v 3v1 2")) {
        LineCommand::SetVertices(true, Some(_), v) => assert_eq!(text(&v), "2"),
        other => panic!("{:?}", other),
    }
    assert!(matches!(line_command(&cs(":set v")), LineCommand::Nothing));
    match line_command(&cs(":set ord 3")) {
        LineCommand::SetOrder(false, None, v) => assert_eq!(text(&v), "3"),
        other => panic!("{:?}", other),
    }
}

#[test]
fn line_set_op_keeps_the_rest_of_the_line() {
    match line_command(&cs(":set op lowpass() >> dc(1)\t")) {
        LineCommand::SetOp(None, op) => assert_eq!(text(&op), "lowpass() >> dc(1)"),
        other => panic!("{:?}", other),
    }
    match line_command(&cs(":set op 3v1 sum")) {
        LineCommand::SetOp(Some(e), op) => {
            assert_eq!(e, (1u64 << 32) | 3);
            assert_eq!(text(&op), "sum");
        }
        other => panic!("{:?}", other),
    }
}

#[test]
fn line_set_array_and_targets() {
    match line_command(&cs(":set arr 1 2.5 3")) {
        LineCommand::SetArray(None, vs) => {
            let vs: Vec<String> = vs.iter().map(|v| text(v)).collect();
            assert_eq!(vs, vec!["1", "2.5", "3"]);
        }
        other => panic!("{:?}", other),
    }
    match line_command(&cs(":set tar 1v1 x 2v1")) {
        LineCommand::SetTargets(ids) => assert_eq!(ids, vec![(1u64 << 32) | 1, (1u64 << 32) | 2]),
        other => panic!("{:?}", other),
    }
}

#[test]
fn line_push_number_or_target() {
    match line_command(&cs(":push 5")) {
        LineCommand::PushNum(None, v) => assert_eq!(text(&v), "5"),
        other => panic!("{:?}", other),
    }
    assert!(matches!(line_command(&cs(":push 2v1")), LineCommand::PushTarget(None, _)));
    assert!(matches!(line_command(&cs(":push 2v1 3v1")), LineCommand::PushTarget(Some(_), _)));
}

#[test]
fn line_scene_and_quit() {
    match line_command(&cs(":w moth.cute")) {
        LineCommand::SaveScene(f) => assert_eq!(text(&f), "moth.cute"),
        other => panic!("{:?}", other),
    }
    match line_command(&cs(":e soup.fun")) {
        LineCommand::OpenScene(f) => assert_eq!(text(&f), "soup.fun"),
        other => panic!("{:?}", other),
    }
    assert!(matches!(line_command(&cs(":q")), LineCommand::Quit));
    assert!(matches!(line_command(&cs(":e")), LineCommand::Nothing));
    assert!(matches!(line_command(&cs("")), LineCommand::Nothing));
    assert!(matches!(line_command(&cs(":nope")), LineCommand::Nothing));
}

#[test]
fn line_link_types_and_defaults() {
    assert!(matches!(line_command(&cs(":lt n")), LineCommand::LinkType(None, -1)));
    assert!(matches!(line_command(&cs(":lt 3v1 T")), LineCommand::LinkType(Some(_), -14)));
    assert!(matches!(line_command(&cs(":lt 7")), LineCommand::LinkType(None, 7)));
    match line_command(&cs(":dv 5.5")) {
        LineCommand::DefaultVerts(v) => assert_eq!(text(&v), "5.5"),
        other => panic!("{:?}", other),
    }
    assert_eq!(default_verts(100), 64);
    assert_eq!(default_verts(1), 3);
    assert_eq!(default_verts(7), 7);
    assert!(matches!(line_command(&cs(":nl 500")), LineCommand::NodeLimit(500)));
    assert!(matches!(line_command(&cs(":ht 2v1")), LineCommand::ToggleOpen(_)));
    assert!(matches!(line_command(&cs(":tsel 4v2")), LineCommand::TargetSelected(_)));
    match line_command(&cs(":dc 1 2 3 4 5 6")) {
        LineCommand::DefaultColor(vs) => assert_eq!(vs.len(), 4),
        other => panic!("{:?}", other),
    }
}

#[test]
fn line_devices() {
    assert!(matches!(
        line_command(&cs(":od 0 1 48000 256")),
        LineCommand::OutDevice(0, 1, Some(48000), Some(256))
    ));
    assert!(matches!(line_command(&cs(":id 1 2")), LineCommand::InDevice(1, 2, None, None)));
    assert!(matches!(line_command(&cs(":od 0")), LineCommand::Nothing));
}

#[test]
fn key_commands_by_name() {
    assert_eq!(key_command(&cs("d")), Some(KeyCommand::Draw));
    assert_eq!(key_command(&cs("c")), Some(KeyCommand::Connect));
    assert_eq!(key_command(&cs("et")), Some(KeyCommand::DragOnly(DragMode::Translation)));
    assert_eq!(key_command(&cs("Ev")), Some(KeyCommand::DragAdd(DragMode::Vertices)));
    assert_eq!(key_command(&cs("ee")), Some(KeyCommand::DragNone));
    assert_eq!(key_command(&cs("iop")), Some(KeyCommand::Inspect(Inspect::Op)));
    assert_eq!(key_command(&cs("sg")), Some(KeyCommand::Select(Selection::HolesOfSelected)));
    assert_eq!(key_command(&cs("vb")), Some(KeyCommand::Show(Visibility::BlackHoles)));
    assert_eq!(key_command(&cs("]")), Some(KeyCommand::OrderUp));
    assert_eq!(key_command(&cs("\"+y")), Some(KeyCommand::Copy));
    assert_eq!(key_command(&cs("x")), None);
    assert_eq!(text_key_command(&cs("ht ")), Some(KeyCommand::ToggleOpen));
    assert_eq!(text_key_command(&cs("  ")), None);
}

#[test]
fn frame_types_and_runs_lines() {
    let mut cl = line();
    let mut keys = typed(":q;:w a");
    keys.push(Key::Enter);
    let (mode, actions) = cl.frame(Mode::Edit, no_keys(), &keys);
    assert_eq!(mode, None);
    assert!(cl.text.is_empty());
    assert_eq!(actions.len(), 2);
    assert!(matches!(actions[0], Action::Line(LineCommand::Quit)));
    assert!(matches!(&actions[1], Action::Line(LineCommand::SaveScene(f)) if text(f) == "a"));
}

#[test]
fn frame_backspace_and_space() {
    let mut cl = line();
    let mut keys = typed(":set  x");
    keys.push(Key::Backspace);
    keys.push(Key::Other);
    keys.push(Key::Character(cs("ab")));
    let (_, actions) = cl.frame(Mode::Edit, no_keys(), &keys);
    assert!(actions.is_empty());
    assert_eq!(text(&cl.text), ":set a");
}

#[test]
fn frame_immediate_commands() {
    let mut cl = line();
    let (mode, actions) = cl.frame(Mode::Edit, no_keys(), &vec![Key::Character(cs("d"))]);
    assert_eq!(mode, Some(Mode::Draw));
    assert!(actions.is_empty());
    assert_eq!(text(&cl.text), "-- DRAW --");

    let mut cl = line();
    let (mode, _) = cl.frame(Mode::Edit, no_keys(), &typed("en"));
    assert_eq!(mode, None);
    assert!(cl.drag.n && !cl.drag.t);
    assert!(cl.text.is_empty());

    let mut cl = line();
    let (_, actions) = cl.frame(Mode::Edit, no_keys(), &typed("sa"));
    assert!(matches!(actions[0], Action::Key(KeyCommand::Select(Selection::All))));
}

#[test]
fn frame_delete_key() {
    let mut cl = line();
    let held = Held { delete: true, ..no_keys() };
    let (mode, actions) = cl.frame(Mode::Edit, held, &vec![Key::Character(cs("x"))]);
    assert_eq!(mode, None);
    assert!(matches!(actions[0], Action::DeleteSelected));
    assert!(cl.text.is_empty());
}

#[test]
fn frame_connect_mode_link_type_entry() {
    let mut cl = line();
    cl.text = cs("-- CONNECT --");
    let held = Held { c: true, ..no_keys() };
    cl.frame(Mode::Connect, held, &vec![]);
    assert_eq!(text(&cl.text), "-- LT --> ");
    cl.frame(Mode::Connect, no_keys(), &vec![Key::Character(cs("n")), Key::Character(cs("x"))]);
    assert_eq!(cl.default_lt, (-1, -3));
    let (mode, _) = cl.frame(Mode::Connect, no_keys(), &vec![]);
    assert_eq!(mode, None);
    assert_eq!(text(&cl.text), "-- CONNECT -- (n x)");
}

#[test]
fn frame_draw_mode_exits() {
    let mut cl = line();
    cl.text = cs("-- DRAW --");
    let held = Held { escape_or_e: true, ..no_keys() };
    let (mode, actions) = cl.frame(Mode::Draw, held, &vec![]);
    assert_eq!(mode, Some(Mode::Edit));
    assert!(matches!(actions[0], Action::ClearKeyEvents));
    assert!(cl.text.is_empty());
}

#[test]
fn vertices_after_set_keeps_three() {
    assert_eq!(vertices_after_set(4, 6, false), 6);
    assert_eq!(vertices_after_set(9, 1, false), 3);
    assert_eq!(vertices_after_set(4, 2, true), 6);
    assert_eq!(vertices_after_set(1, 1, true), 3);
    // `:set v 4.5` parses as a float and sets 4 vertices
    assert_eq!(vertices_after_set(7, 4.5_f32 as usize, false), 4);
}

#[test]
fn set_targets_first_gets_rest_without_selection() {
    assert_eq!(targets_plan(&vec![], &vec![1, 2, 3]), (Some(1), vec![2, 3]));
    assert_eq!(targets_plan(&vec![9], &vec![1, 2, 3]), (None, vec![1, 2, 3]));
    assert_eq!(targets_plan(&vec![], &vec![]), (None, vec![]));
}
