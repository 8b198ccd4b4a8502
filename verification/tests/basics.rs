use quartz::arrays::{collect_slots, make_slot, present, repeat, resize, set_at, split_at_len, unzip, zip};
use quartz::drag::{drag_vertices, step_vertices, DragMode, DragModes};
use quartz::functions::{lt_to_string, str_to_lt};
use quartz::ids::str_to_id;
use quartz::order::{order_after_connect, prepare_loop_queue, sort_by_order, step_order, QueuedCircle};

#[test]
fn str_to_lt_names_and_numbers() {
    assert_eq!(str_to_lt("n"), -1);
    assert_eq!(str_to_lt("r"), -2);
    assert_eq!(str_to_lt("x"), -3);
    assert_eq!(str_to_lt("y"), -4);
    assert_eq!(str_to_lt("z"), -5);
    assert_eq!(str_to_lt("h"), -6);
    assert_eq!(str_to_lt("s"), -7);
    assert_eq!(str_to_lt("l"), -8);
    assert_eq!(str_to_lt("a"), -9);
    assert_eq!(str_to_lt("v"), -11);
    assert_eq!(str_to_lt("o"), -12);
    assert_eq!(str_to_lt("A"), -13);
    assert_eq!(str_to_lt("T"), -14);
    assert_eq!(str_to_lt("42"), 42);
    assert_eq!(str_to_lt("-7"), -7);
    assert_eq!(str_to_lt("+5"), 5);
    assert_eq!(str_to_lt("2147483647"), 2147483647);
    assert_eq!(str_to_lt("-2147483648"), -2147483648);
    assert_eq!(str_to_lt("2147483648"), 0);
    assert_eq!(str_to_lt("q"), 0);
    assert_eq!(str_to_lt(""), 0);
    assert_eq!(str_to_lt("nn"), 0);
}

#[test]
fn lt_to_string_names_and_numbers() {
    assert_eq!(lt_to_string(-1), "n");
    assert_eq!(lt_to_string(-3), "x");
    assert_eq!(lt_to_string(-11), "v");
    assert_eq!(lt_to_string(-13), "A");
    assert_eq!(lt_to_string(-14), "T");
    assert_eq!(lt_to_string(-10), "-10");
    assert_eq!(lt_to_string(0), "0");
    assert_eq!(lt_to_string(17), "17");
    assert_eq!(lt_to_string(i32::MIN), "-2147483648");
}

#[test]
fn link_type_text_round_trip() {
    for n in [-14, -13, -12, -11, -10, -9, -1, 0, 1, 99, i32::MAX, i32::MIN] {
        assert_eq!(str_to_lt(&lt_to_string(n)), n);
    }
}

#[test]
fn str_to_id_reads_index_and_generation() {
    assert_eq!(str_to_id("4v1"), Some((1u64 << 32) | 4));
    assert_eq!(str_to_id("0v1"), Some(1u64 << 32));
    assert_eq!(str_to_id("4v0"), None);
    assert_eq!(str_to_id("1v2147483648"), None);
    assert_eq!(str_to_id("4294967296v1"), None);
    assert_eq!(str_to_id("4294967295v2147483647"), Some((2147483647u64 << 32) | 4294967295));
    assert_eq!(str_to_id("12v3v9"), Some((3u64 << 32) | 12));
    assert_eq!(str_to_id("4"), None);
    assert_eq!(str_to_id("v1"), None);
    assert_eq!(str_to_id("4v"), None);
    assert_eq!(str_to_id("4vx"), None);
    assert_eq!(str_to_id("a4v1"), None);
}

#[test]
fn id_text_round_trip() {
    for (i, g) in [(0u64, 1u64), (7, 2), (4294967295, 2147483647)] {
        assert_eq!(str_to_id(&format!("{}v{}", i, g)), Some(g * (1u64 << 32) + i));
    }
}

#[test]
fn sort_by_order_layers_by_order() {
    let q = sort_by_order(&vec![('a', 2), ('b', 0), ('c', 1), ('d', 2), ('e', 4)]);
    assert_eq!(q, vec![vec!['c'], vec!['a', 'd'], vec![], vec!['e']]);
    let empty: Vec<(char, usize)> = vec![];
    assert_eq!(sort_by_order(&empty), vec![Vec::<char>::new()]);
    assert_eq!(sort_by_order(&vec![('z', 0)]), vec![Vec::<char>::new()]);
}

#[test]
fn prepare_loop_queue_takes_circle_targets_of_process() {
    let queued = vec![
        QueuedCircle { op_num: 92, targets: vec![(1u64, true), (2, false), (3, true)] },
        QueuedCircle { op_num: 5, targets: vec![(9, true)] },
        QueuedCircle { op_num: 92, targets: vec![(4, true)] },
    ];
    assert_eq!(prepare_loop_queue(&queued), vec![1, 3, 4]);
}

#[test]
fn connecting_orders_sink_after_source() {
    assert_eq!(order_after_connect(2, 1), (3, true));
    assert_eq!(order_after_connect(2, 2), (3, true));
    assert_eq!(order_after_connect(2, 5), (5, false));
    assert_eq!(order_after_connect(0, 0), (1, true));
}

#[test]
fn step_order_up_and_down() {
    assert_eq!(step_order(3, true), 4);
    assert_eq!(step_order(3, false), 2);
    assert_eq!(step_order(0, false), 0);
}

#[test]
fn zip_interleaves() {
    assert_eq!(zip(&vec![1, 2, 3], &vec![10, 20]), vec![1, 10, 2, 20, 3]);
    assert_eq!(zip(&vec![], &vec![5, 6]), vec![5, 6]);
}

#[test]
fn unzip_splits_even_and_odd() {
    assert_eq!(unzip(&vec![1, 10, 2, 20, 3]), (vec![1, 2, 3], vec![10, 20]));
    assert_eq!(unzip(&Vec::<i32>::new()), (vec![], vec![]));
}

#[test]
fn unzip_undoes_zip() {
    let (a, b) = (vec![1, 2, 3], vec![4, 5, 6]);
    assert_eq!(unzip(&zip(&a, &b)), (a, b));
}

#[test]
fn zip_undoes_unzip() {
    let s = vec![9, 8, 7, 6, 5];
    let (l, r) = unzip(&s);
    assert_eq!(zip(&l, &r), s);
}

#[test]
fn resize_cuts_and_pads() {
    let mut a = vec![1, 2, 3];
    resize(&mut a, 5, 0);
    assert_eq!(a, vec![1, 2, 3, 0, 0]);
    resize(&mut a, 2, 0);
    assert_eq!(a, vec![1, 2]);
}

#[test]
fn repeat_repeats() {
    assert_eq!(repeat(&vec![1, 2], 3), vec![1, 2, 1, 2, 1, 2]);
    assert_eq!(repeat(&vec![1, 2], 0), Vec::<i32>::new());
}

#[test]
fn collect_slots_orders_by_input_number() {
    let slots = collect_slots(&vec![(2, 'c'), (0, 'a'), (-3, 'z'), (4, 'e')]);
    assert_eq!(slots, vec![Some('z'), None, Some('c'), None, Some('e')]);
    assert_eq!(present(&slots), vec!['z', 'c', 'e']);
}

#[test]
fn split_at_len_keeps_head() {
    let mut a = vec![1, 2, 3, 4];
    assert_eq!(split_at_len(&mut a, 1), Some(vec![2, 3, 4]));
    assert_eq!(a, vec![1]);
    assert_eq!(split_at_len(&mut a, 1), Some(vec![]));
    assert_eq!(split_at_len(&mut a, 2), None);
    assert_eq!(a, vec![1]);
}

#[test]
fn set_at_writes_inside_only() {
    let mut a = vec![1, 2, 3];
    assert!(set_at(&mut a, 1, 9));
    assert_eq!(a, vec![1, 9, 3]);
    assert!(!set_at(&mut a, 3, 9));
    assert_eq!(a, vec![1, 9, 3]);
}

#[test]
fn drag_modes_only_add_falsify() {
    let mut d = DragModes::default();
    d.only(DragMode::Translation);
    assert_eq!(d.link_types(), vec![-3, -4]);
    d.add(DragMode::Vertices);
    d.add(DragMode::Num);
    assert_eq!(d.link_types(), vec![-3, -4, -1, -11]);
    d.only(DragMode::Rotation);
    assert_eq!(d.link_types(), vec![-12]);
    d.falsify();
    assert_eq!(d.link_types(), Vec::<i8>::new());
    assert_eq!(d, DragModes::default());
}

#[test]
fn vertices_drag_and_step() {
    assert_eq!(drag_vertices(4, 3), 7);
    assert_eq!(drag_vertices(6, -2), 4);
    assert_eq!(drag_vertices(5, -2), 3);
    assert_eq!(drag_vertices(4, -2), 4);
    assert_eq!(drag_vertices(3, -1), 3);
    assert_eq!(drag_vertices(5, 0), 5);
    assert_eq!(drag_vertices(5_000_000_000, -2), 4_999_999_998);
    assert_eq!(drag_vertices(3_000_000_000, i32::MIN), 3_000_000_000 - 2_147_483_648);
    assert_eq!(step_vertices(3, true), 4);
    assert_eq!(step_vertices(5, false), 4);
    assert_eq!(step_vertices(4, false), 3);
    assert_eq!(step_vertices(3, false), 3);
    assert_eq!(step_vertices(1, false), 3);
}

#[test]
fn make_slot_grows_with_empty_slots() {
    let mut cache: Vec<Option<char>> = vec![Some('a')];
    make_slot(&mut cache, 3);
    assert_eq!(cache, vec![Some('a'), None, None, None]);
    cache[3] = Some('d');
    make_slot(&mut cache, 2);
    assert_eq!(cache, vec![Some('a'), None, None, Some('d')]);
    make_slot(&mut cache, 4);
    assert_eq!(cache.len(), 5);
    assert_eq!(cache[3], Some('d'));
}
