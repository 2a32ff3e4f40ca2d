use disk_scanner::model::{arena_bytes, kind_code, state_code, NO_NODE, ROOT};
use disk_scanner::{Kind, Node, Sizes, State, Tree};

fn small_tree() -> Tree {
    let mut t = Tree::new();
    t.push(b"/", NO_NODE, Kind::Dir, State::Scanned);
    t.push(b"a", 0, Kind::Dir, State::Scanned);
    t.push(b"b.txt", 0, Kind::File, State::Scanned);
    t.push(b"x", 1, Kind::File, State::Scanned);
    t.push(b"y", 1, Kind::Dir, State::DeniedTcc);
    t.nodes[0].first_child = 1;
    t.nodes[0].child_count = 2;
    t.nodes[1].first_child = 3;
    t.nodes[1].child_count = 2;
    t.nodes[2].size.physical = 10;
    t.nodes[2].size.exclusive = 4;
    t.nodes[3].size.physical = 7;
    t.nodes[3].size.shared_snapshot = 7;
    t
}

#[test]
fn node_stays_compact() {
    assert!(
        std::mem::size_of::<Node>() <= 96,
        "Node grew to {} bytes",
        std::mem::size_of::<Node>()
    );
}

#[test]
fn rollup_handles_deep_chain() {
    let mut t = Tree::new();
    t.push(b"/", NO_NODE, Kind::Dir, State::Scanned);
    for i in 1..1000u32 {
        t.push(b"d", i - 1, Kind::Dir, State::Scanned);
        t.nodes[i as usize].size.physical = 1;
    }
    t.rollup();
    assert_eq!(t.node(ROOT).size.physical, 999);
}

#[test]
fn rollup_adds_children_and_counts_unknown_nodes() {
    let mut t = small_tree();
    assert!(t.rollup_fits());
    t.rollup();
    assert_eq!(t.node(0).size.physical, 17);
    assert_eq!(t.node(0).size.exclusive, 4);
    assert_eq!(t.node(0).size.shared_snapshot, 7);
    assert_eq!(t.node(1).size.physical, 7);
    assert_eq!(t.node(0).unknown_below, 1);
    assert_eq!(t.node(1).unknown_below, 1);
    assert_eq!(t.node(4).unknown_below, 1);
    assert_eq!(t.node(3).unknown_below, 0);
    assert!(!t.node(0).is_complete());
    assert!(t.node(2).is_complete());
}

#[test]
fn a_refused_root_is_not_complete() {
    let mut t = Tree::new();
    t.push(b"/secret", NO_NODE, Kind::Dir, State::DeniedPerm);
    t.rollup();
    assert_eq!(t.node(ROOT).unknown_below, 1);
    assert!(!t.node(ROOT).is_complete());
}

#[test]
fn rollup_fits_tells_of_an_overflow() {
    let mut t = small_tree();
    t.nodes[2].size.logical = u64::MAX;
    assert!(t.rollup_fits());
    t.nodes[3].size.logical = 1;
    assert!(!t.rollup_fits());
}

#[test]
fn names_and_paths() {
    let t = small_tree();
    assert_eq!(t.name(2), b"b.txt");
    assert_eq!(t.path(0), b"/");
    assert_eq!(t.path(2), b"/b.txt");
    assert_eq!(t.path(3), b"/a/x");
    let mut u = Tree::default();
    assert!(u.is_empty());
    u.push(b"/tmp", NO_NODE, Kind::Dir, State::Scanned);
    u.push(b"f", 0, Kind::File, State::Scanned);
    assert_eq!(u.path(1), b"/tmp/f");
    assert_eq!(u.len(), 2);
}

#[test]
fn names_as_text() {
    let mut t = Tree::with_capacity(4);
    t.push("d\u{e9}ep".as_bytes(), NO_NODE, Kind::Dir, State::Scanned);
    t.push(b"bad\xff\xfename", 0, Kind::File, State::Scanned);
    assert_eq!(t.name_str(0), "d\u{e9}ep");
    assert_eq!(t.name_str(1), "bad\u{fffd}\u{fffd}name");
}

#[test]
fn a_long_name_is_cut_to_its_low_bits() {
    let mut t = Tree::new();
    let name = vec![b'n'; 65536 + 3];
    t.push(&name, NO_NODE, Kind::File, State::Scanned);
    assert_eq!(t.name(0), b"nnn");
}

#[test]
fn children_are_sorted_by_a_key() {
    let mut t = small_tree();
    t.rollup();
    assert_eq!(t.node(0).children(), 1..3);
    assert_eq!(t.node(2).children(), 0..0);
    assert_eq!(t.child_ids(1), vec![3, 4]);
    assert_eq!(t.children_by(0, |n: &Node| n.size.physical), vec![2, 1]);
    assert_eq!(t.children_by(0, |n: &Node| n.size.shared_snapshot), vec![1, 2]);
    assert_eq!(t.children_by(2, |n: &Node| n.size.physical), Vec::<u32>::new());
}

#[test]
fn sizes_add_and_share() {
    let mut a = Sizes { logical: 1, physical: 2, exclusive: 3, shared_clones: 4, shared_snapshot: 5, sparse_saving: 6 };
    let b = a;
    a.add(&b);
    assert_eq!(
        a,
        Sizes { logical: 2, physical: 4, exclusive: 6, shared_clones: 8, shared_snapshot: 10, sparse_saving: 12 }
    );
    assert_eq!(a.shared(), 18);
    assert_eq!(Sizes::default().shared(), 0);
}

#[test]
fn codes_of_kinds_and_states() {
    assert_eq!(
        [Kind::Dir, Kind::File, Kind::Symlink, Kind::Other].map(kind_code),
        [0, 1, 2, 3]
    );
    assert_eq!(
        [State::Scanned, State::DeniedTcc, State::DeniedPerm, State::Error, State::Skipped].map(state_code),
        [0, 1, 2, 3, 4]
    );
    let mut n = *small_tree().node(4);
    assert_eq!(n.state(), State::DeniedTcc);
    n.set_state(State::Skipped);
    assert_eq!(n.state(), State::Skipped);
    assert_eq!(n.kind(), Kind::Dir);
    assert!(n.is_dir());
}

#[test]
fn the_arena_shrinks_and_is_measured() {
    let mut t = Tree::with_capacity(1000);
    t.push(b"root", NO_NODE, Kind::Dir, State::Scanned);
    let node = std::mem::size_of::<Node>();
    assert!(t.memory_bytes() >= 1000 * node + 16000);
    t.shrink();
    assert_eq!(t.name(0), b"root");
    assert!(t.memory_bytes() >= node + 4);
    assert!(t.memory_bytes() < 1000 * node);
    assert!(t.memory_bytes() <= 2 * isize::MAX as usize);
    assert_eq!(arena_bytes(10, 7), 10 * node + 7);
}
