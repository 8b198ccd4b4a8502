use quartz::patch::{add_targets, connection_pairs, reopen_after, BlackHole, LinkEdit, Patch, Reopen, WhiteHole};
use std::collections::HashSet;

/// Circles 1, 2, 3 and 4; 1 -> 2 (black 10, white 11, reading numbers into
/// numbers), 2 -> 3 (black 20, white 21, reading arrays into arrays) and
/// 1 -> 3 (black 30, white 31, reading numbers into the second input).
fn sample() -> Patch {
    let mut p = Patch::new();
    for c in 1..=4 {
        p.add_circle(c);
    }
    p.connect(1, 2, 10, 11, (-1, -1));
    p.connect(2, 3, 20, 21, (-13, -13));
    p.connect(1, 3, 30, 31, (-1, 2));
    p
}

fn open_flags(p: &Patch) -> Vec<(u64, bool)> {
    let mut v: Vec<(u64, bool)> = p.white.iter().map(|(k, w)| (*k, w.open)).collect();
    v.sort();
    v
}

#[test]
fn connect_records_both_holes() {
    let p = sample();
    assert_eq!(p.holes[&1], vec![10, 30]);
    assert_eq!(p.holes[&2], vec![11, 20]);
    assert_eq!(p.holes[&3], vec![21, 31]);
    assert_eq!(p.holes[&4], Vec::<u64>::new());
    assert_eq!(p.black[&10], BlackHole { wh: 11, wh_parent: 2 });
    assert_eq!(
        p.white[&31],
        WhiteHole { bh: 30, bh_parent: 1, link_types: (-1, 2), open: true }
    );
}

#[test]
fn read_input_gates_array_readers() {
    let mut p = sample();
    assert_eq!(p.read_input(11), Some((-1, -1)));
    assert_eq!(p.read_input(21), Some((-13, -13)));
    assert_eq!(p.read_input(10), None);
    p.white.get_mut(&21).unwrap().link_types = (-13, 1);
    assert_eq!(p.read_input(21), None);
    p.set_open(&vec![11], false);
    assert_eq!(p.read_input(11), None);
}

#[test]
fn finish_closes_own_inputs_and_opens_readers() {
    let mut p = sample();
    p.set_open(&vec![11, 21, 31], false);
    // circle 1 produced a new number
    p.finish(&vec![10, 30], Some(-1));
    assert_eq!(open_flags(&p), vec![(11, true), (21, false), (31, true)]);
    // circle 2 reads its input, produces nothing of type -13
    p.finish(&vec![11, 20], Some(-1));
    assert_eq!(open_flags(&p), vec![(11, false), (21, false), (31, true)]);
    // circle 2 produces an array
    p.finish(&vec![11, 20], Some(-13));
    assert_eq!(open_flags(&p), vec![(11, false), (21, true), (31, true)]);
    // circle 3 reads both inputs
    p.finish(&vec![21, 31], None);
    assert_eq!(open_flags(&p), vec![(11, false), (21, false), (31, false)]);
}

#[test]
fn open_readers_of_types_opens_each_type() {
    let mut p = sample();
    p.set_open(&vec![11, 21, 31], false);
    p.open_readers_of_types(&vec![10, 30], &vec![-3, -1]);
    assert_eq!(open_flags(&p), vec![(11, true), (21, false), (31, true)]);
}

#[test]
fn set_open_ignores_other_ids() {
    let mut p = sample();
    p.set_open(&vec![1, 10, 11, 99], false);
    assert_eq!(open_flags(&p), vec![(11, false), (21, true), (31, true)]);
}

#[test]
fn target_link_types_set_both_ends() {
    let mut p = sample();
    p.set_target_link_types(&vec![11, 20, 2], -2);
    assert_eq!(p.white[&11].link_types, (-1, -2));
    assert_eq!(p.white[&21].link_types, (-2, -13));
    assert_eq!(p.white[&31].link_types, (-1, 2));
}

#[test]
fn delete_circle_takes_its_connections() {
    let mut p = sample();
    let d = p.delete_selected(&vec![2]);
    assert_eq!(d.circles, vec![2]);
    let mut conns = d.connections.clone();
    conns.sort();
    assert_eq!(conns, vec![(10, 11), (20, 21)]);
    assert_eq!(d.lost, vec![3]);
    assert!(!p.holes.contains_key(&2));
    assert_eq!(p.holes[&1], vec![30]);
    assert_eq!(p.holes[&3], vec![31]);
    assert!(!p.black.contains_key(&10) && !p.black.contains_key(&20));
    assert!(!p.white.contains_key(&11) && !p.white.contains_key(&21));
    assert!(p.black.contains_key(&30) && p.white.contains_key(&31));
}

#[test]
fn delete_hole_takes_its_partner() {
    let mut p = sample();
    let d = p.delete_selected(&vec![31]);
    assert!(d.circles.is_empty());
    assert_eq!(d.connections, vec![(30, 31)]);
    assert_eq!(d.lost, vec![3]);
    assert_eq!(p.holes[&1], vec![10]);
    assert_eq!(p.holes[&3], vec![21]);
    let d = p.delete_selected(&vec![20]);
    assert_eq!(d.connections, vec![(20, 21)]);
    assert_eq!(p.holes[&2], vec![11]);
    assert_eq!(p.holes[&3], Vec::<u64>::new());
}

#[test]
fn delete_two_connected_circles() {
    let mut p = sample();
    let d = p.delete_selected(&vec![1, 2]);
    let mut circles = d.circles.clone();
    circles.sort();
    assert_eq!(circles, vec![1, 2]);
    assert_eq!(d.connections.len(), 3);
    assert_eq!(d.lost, vec![3]);
    assert_eq!(p.holes[&3], Vec::<u64>::new());
    assert!(p.black.is_empty() && p.white.is_empty());
}

#[test]
fn delete_unknown_ids_changes_nothing() {
    let mut p = sample();
    let d = p.delete_selected(&vec![77, 4]);
    assert_eq!(d.circles, vec![4]);
    assert!(d.connections.is_empty());
    assert!(d.lost.is_empty());
    assert_eq!(p.black.len(), 3);
    assert_eq!(p.white.len(), 3);
}

#[test]
fn connection_pairs_chain_targets() {
    assert_eq!(connection_pairs(&vec![1, 2, 2, 3]), vec![(1, 2), (2, 3)]);
    assert_eq!(connection_pairs(&vec![5]), Vec::<(u64, u64)>::new());
    assert_eq!(connection_pairs(&vec![]), Vec::<(u64, u64)>::new());
    assert_eq!(connection_pairs(&vec![4, 1, 4]), vec![(4, 1), (1, 4)]);
}

#[test]
fn first_white_with_finds_first_match() {
    let mut p = sample();
    p.white.get_mut(&31).unwrap().link_types = (-14, 2);
    let w = p.first_white_with(&vec![21, 31], (-14, 2)).unwrap();
    assert_eq!(w.bh_parent, 1);
    assert!(p.first_white_with(&vec![21, 31], (-14, 1)).is_none());
}

#[test]
fn restorable_holes_keep_complete_connections() {
    let mut p = sample();
    let drawn: HashSet<u64> = [1u64, 2, 3].into_iter().collect();
    assert_eq!(p.restorable_holes(&vec![21, 31, 99], &drawn), vec![21, 31]);
    let only_three: HashSet<u64> = [3u64].into_iter().collect();
    assert_eq!(p.restorable_holes(&vec![21, 31], &only_three), Vec::<u64>::new());
    p.black.remove(&20);
    assert_eq!(p.restorable_holes(&vec![20, 21, 31], &drawn), vec![31]);
}

#[test]
fn keep_circles_and_holes_of_targets() {
    let p = sample();
    assert_eq!(p.keep_circles(&vec![10, 3, 31, 1]), vec![3, 1]);
    assert_eq!(p.holes_of_targets(&vec![3, 11, 1]), vec![21, 31, 10, 30]);
}

#[test]
fn circle_ids_lists_every_circle_once() {
    let p = sample();
    let mut ids = p.circle_ids();
    ids.sort();
    assert_eq!(ids, vec![1, 2, 3, 4]);
}

#[test]
fn toggle_open_flips_white_holes_only() {
    let mut p = sample();
    p.toggle_open(11);
    assert!(!p.white[&11].open);
    p.toggle_open(11);
    assert!(p.white[&11].open);
    p.toggle_open(10);
    p.toggle_open(5);
    assert_eq!(open_flags(&p), vec![(11, true), (21, true), (31, true)]);
}

#[test]
fn deleting_a_new_connection_restores_the_patch() {
    let mut p = sample();
    let before_holes = p.holes.clone();
    let before_white = p.white.clone();
    let before_black = p.black.clone();
    p.connect(4, 1, 40, 41, (0, 0));
    p.delete_selected(&vec![40]);
    assert_eq!(p.holes, before_holes);
    assert_eq!(p.white, before_white);
    assert_eq!(p.black, before_black);
    p.connect(3, 4, 50, 51, (-1, -2));
    p.delete_selected(&vec![51]);
    assert_eq!(p.holes, before_holes);
    assert_eq!(p.white, before_white);
    assert_eq!(p.black, before_black);
}

#[test]
fn edit_link_types_sets_and_steps() {
    let mut p = sample();
    p.set_open(&vec![11, 21, 31], false);
    p.edit_link_types(&vec![11, 20], LinkEdit::To(-6));
    assert_eq!(p.white[&11].link_types, (-1, -6));
    assert_eq!(p.white[&21].link_types, (-6, -13));
    assert_eq!(open_flags(&p), vec![(11, true), (21, true), (31, false)]);
    p.edit_link_types(&vec![31, 31], LinkEdit::Up);
    assert_eq!(p.white[&31].link_types, (-1, 4));
    p.edit_link_types(&vec![30], LinkEdit::Down);
    assert_eq!(p.white[&31].link_types, (-2, 4));
    p.edit_link_types(&vec![31], LinkEdit::To(127));
    p.edit_link_types(&vec![31], LinkEdit::Up);
    assert_eq!(p.white[&31].link_types, (-2, 127));
    p.edit_link_types(&vec![30], LinkEdit::To(-128));
    p.edit_link_types(&vec![30], LinkEdit::Down);
    assert_eq!(p.white[&31].link_types, (-128, 127));
    p.edit_link_types(&vec![1, 99], LinkEdit::Up);
    assert_eq!(p.white[&11].link_types, (-1, -6));
}

#[test]
fn is_wf_tells_broken_patches() {
    let mut p = sample();
    assert!(p.is_wf());
    assert!(Patch::new().is_wf());
    p.holes.get_mut(&2).unwrap().retain(|h| *h != 11);
    assert!(!p.is_wf());
    let mut p = sample();
    p.white.get_mut(&11).unwrap().bh = 30;
    assert!(!p.is_wf());
    let mut p = sample();
    p.holes.get_mut(&4).unwrap().push(10);
    assert!(!p.is_wf());
    let mut p = sample();
    p.black.remove(&20);
    assert!(!p.is_wf());
    let mut p = sample();
    p.add_circle(5);
    p.connect(5, 4, 60, 61, (0, 0));
    assert!(p.is_wf());
    p.delete_selected(&vec![1]);
    assert!(p.is_wf());
}

#[test]
fn toggling_a_selection_twice_restores_it() {
    let mut p = sample();
    p.set_open(&vec![21], false);
    let before = open_flags(&p);
    let sel = vec![11, 21, 1, 10];
    p.toggle_open_all(&sel);
    assert_eq!(open_flags(&p), vec![(11, false), (21, true), (31, true)]);
    p.toggle_open_all(&sel);
    assert_eq!(open_flags(&p), before);
    p.toggle_open_all(&vec![31, 31]);
    assert_eq!(open_flags(&p), before);
}

#[test]
fn reopen_after_a_command() {
    assert_eq!(reopen_after(Some(2), true, -11), Reopen::One(2, -11));
    assert_eq!(reopen_after(Some(2), false, -11), Reopen::Nothing);
    assert_eq!(reopen_after(None, false, -1), Reopen::Selected(-1));
    let mut p = sample();
    p.set_open(&vec![11, 21, 31], false);
    // circle 1 changed its number: its number readers (11 and 31) open
    p.reopen(Reopen::One(1, -1), &vec![]);
    assert_eq!(open_flags(&p), vec![(11, true), (21, false), (31, true)]);
    p.set_open(&vec![11, 31], false);
    p.reopen(Reopen::Selected(-13), &vec![2, 4]);
    assert_eq!(open_flags(&p), vec![(11, false), (21, true), (31, false)]);
    p.reopen(Reopen::Nothing, &vec![1, 2]);
    assert_eq!(open_flags(&p), vec![(11, false), (21, true), (31, false)]);
}

#[test]
fn reader_by_link_types_and_open_flag() {
    let mut p = sample();
    assert_eq!(p.reader(31, (-1, 2), true).map(|w| w.bh), Some(30));
    assert_eq!(p.reader(31, (-1, 1), false), None);
    assert_eq!(p.reader(10, (-1, -1), false), None);
    p.set_open(&vec![31], false);
    assert_eq!(p.reader(31, (-1, 2), true), None);
    assert_eq!(p.reader(31, (-1, 2), false).map(|w| w.bh_parent), Some(1));
}

#[test]
fn a_frame_by_order_reads_every_input_once() {
    // orders: 1 -> 1, 2 -> 2, 3 -> 3 (sources before sinks)
    let mut p = sample();
    // circle 1 produced numbers, circle 2 arrays, circle 3 nothing
    for (c, lt) in [(1u64, Some(-1i8)), (2, Some(-13)), (3, None)] {
        let holes = p.holes[&c].clone();
        p.finish(&holes, lt);
    }
    assert_eq!(open_flags(&p), vec![(11, false), (21, false), (31, false)]);
}

#[test]
fn connect_target_adds_created_white_holes() {
    let mut targets = vec![5, 6];
    add_targets(&mut targets, &vec![41, 42]);
    assert_eq!(targets, vec![5, 6, 41, 42]);
    let mut none: Vec<u64> = vec![];
    add_targets(&mut none, &vec![7]);
    assert_eq!(none, vec![7]);
}
