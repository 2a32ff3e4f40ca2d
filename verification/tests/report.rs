use std::collections::HashMap;

use disk_scanner::model::{NO_NODE, ROOT};
use disk_scanner::report::{
    clone_totals, human, is_partial, largest, mark, reclaim, reclaimable_from_clones, reconcile, snapshot_hint,
    try_reclaim, Reclaim, Reconciliation,
};
use disk_scanner::scan::Family;
use disk_scanner::sys::iopolicy::Policies;
use disk_scanner::{Kind, ScanResult, State, Stats, Tree};

const MIB64: u64 = 64 << 20;

fn result(tree: Tree, families: &[(u64, Family)], clone_of: &[(u32, u64)]) -> ScanResult {
    ScanResult {
        tree,
        stats: Stats::default(),
        root_path: b"/".to_vec(),
        skipped: Vec::new(),
        families: families.iter().copied().collect::<HashMap<u64, Family>>(),
        clone_of: clone_of.iter().copied().collect::<HashMap<u32, u64>>(),
        policies: Policies::default(),
        volume_used: 0,
        volume_total: 0,
        root_is_volume_root: false,
        cancelled: false,
    }
}

/// Three clones, two of them in a directory, next to a file of their own kind.
fn three_clones() -> ScanResult {
    let mut t = Tree::new();
    t.push(b"/", NO_NODE, Kind::Dir, State::Scanned);
    t.push(b"d", 0, Kind::Dir, State::Scanned);
    t.push(b"c", 0, Kind::File, State::Scanned);
    t.push(b"plain", 0, Kind::File, State::Scanned);
    t.push(b"a", 1, Kind::File, State::Scanned);
    t.push(b"b", 1, Kind::File, State::Scanned);
    t.nodes[0].first_child = 1;
    t.nodes[0].child_count = 3;
    t.nodes[1].first_child = 4;
    t.nodes[1].child_count = 2;
    for i in [2, 4, 5] {
        t.nodes[i].size.physical = MIB64;
        t.nodes[i].size.shared_clones = MIB64;
    }
    t.nodes[3].size.physical = 100;
    t.nodes[3].size.exclusive = 60;
    t.nodes[3].size.shared_snapshot = 40;
    t.rollup();
    let family = Family { refcnt: 3, seen: 3, shared_bytes: MIB64 };
    result(t, &[(7, family)], &[(2, 7), (4, 7), (5, 7)])
}

#[test]
fn two_of_three_clones_free_nothing() {
    let r = three_clones();
    for sel in [vec![4, 5], vec![2, 4], vec![5], vec![1]] {
        let x = reclaim(&r, &sel);
        assert_eq!(x.bytes, 0);
        assert_eq!(x.families_completed, 0);
        assert_eq!(x.held_by_clones_outside, MIB64);
    }
}

#[test]
fn three_of_three_clones_free_their_bytes_once() {
    let r = three_clones();
    let x = reclaim(&r, &[2, 4, 5]);
    assert_eq!(
        x,
        Reclaim {
            bytes: MIB64,
            from_exclusive: 0,
            from_completed_families: MIB64,
            held_by_clones_outside: 0,
            pinned_by_snapshot: 0,
            physical: 3 * MIB64,
            files: 3,
            dirs: 0,
            families_completed: 1,
            unknown: 0,
        }
    );
    assert_eq!(reclaim(&r, &[1, 2]).bytes, MIB64);
}

#[test]
fn what_overlaps_counts_once() {
    let r = three_clones();
    let x = reclaim(&r, &[1]);
    assert_eq!(reclaim(&r, &[1, 4]), x);
    assert_eq!(reclaim(&r, &[4, 1, 1, 5]), x);
    assert_eq!(x.physical, 2 * MIB64);
    assert_eq!((x.files, x.dirs), (2, 1));
}

#[test]
fn stale_ids_select_nothing() {
    let r = three_clones();
    assert_eq!(reclaim(&r, &[3, 99, NO_NODE]), reclaim(&r, &[3]));
    let none = reclaim(&r, &[]);
    assert_eq!((none.bytes, none.files, none.physical), (0, 0, 0));
}

#[test]
fn what_a_snapshot_pins_is_not_freed() {
    let x = reclaim(&three_clones(), &[3]);
    assert_eq!((x.bytes, x.from_exclusive, x.pinned_by_snapshot, x.physical), (60, 60, 40, 100));
}

#[test]
fn more_never_frees_less() {
    let r = three_clones();
    let mut sel = Vec::new();
    let mut last = 0;
    for id in [4, 3, 5, 2, 1, 0] {
        sel.push(id);
        let now = reclaim(&r, &sel).bytes;
        assert!(now >= last);
        last = now;
    }
    assert_eq!(last, MIB64 + 60);
}

#[test]
fn deleting_everything_comes_to_the_totals() {
    let r = three_clones();
    let x = reclaim(&r, &[ROOT]);
    let root = r.tree.node(ROOT);
    assert_eq!(x.from_exclusive, root.size.exclusive);
    assert_eq!(x.physical, root.size.physical);
    assert_eq!(x.pinned_by_snapshot, root.size.shared_snapshot);
    assert_eq!(x.unknown, root.unknown_below);
    assert_eq!(x.from_completed_families, reclaimable_from_clones(&r).0);
}

#[test]
fn unknown_nodes_in_a_selection_are_counted() {
    let mut t = Tree::new();
    t.push(b"/", NO_NODE, Kind::Dir, State::Scanned);
    t.push(b"x", 0, Kind::Dir, State::DeniedTcc);
    t.push(b"y", 0, Kind::Symlink, State::Scanned);
    let r = result(t, &[], &[]);
    assert_eq!(reclaim(&r, &[0]).unknown, 1);
    assert_eq!(reclaim(&r, &[2]).unknown, 0);
    assert_eq!(reclaim(&r, &[0]).files, 0);
    assert_eq!(reclaim(&r, &[0]).dirs, 2);
}

#[test]
fn figures_beyond_their_width_are_told() {
    let mut t = Tree::new();
    t.push(b"/", NO_NODE, Kind::Dir, State::Scanned);
    t.push(b"x", 0, Kind::File, State::Scanned);
    t.push(b"y", 0, Kind::File, State::Scanned);
    t.nodes[1].size.exclusive = u64::MAX;
    t.nodes[2].size.exclusive = 1;
    let r = result(t, &[], &[]);
    assert!(try_reclaim(&r, &[1]).is_some());
    assert!(try_reclaim(&r, &[0]).is_none());
}

#[test]
fn families_that_are_wholly_in_the_scan() {
    let f = |refcnt: u32, seen: u32, shared_bytes: u64| Family { refcnt, seen, shared_bytes };
    let r = result(
        Tree::new(),
        &[(1, f(3, 3, 10)), (2, f(3, 2, 20)), (3, f(1, 1, 40)), (4, f(2, 5, 80))],
        &[],
    );
    assert_eq!(reclaimable_from_clones(&r), (90, 2, 4));
    let big = result(Tree::new(), &[(1, f(2, 2, u64::MAX)), (2, f(2, 2, u64::MAX))], &[]);
    assert_eq!(clone_totals(&big), (2 * (u64::MAX as u128), 2, 2));
}

fn volume(physical: u64, used: u64) -> ScanResult {
    let mut t = Tree::new();
    t.push(b"/", NO_NODE, Kind::Dir, State::Scanned);
    t.nodes[0].size.physical = physical;
    let mut r = result(t, &[], &[]);
    r.root_is_volume_root = true;
    r.volume_used = used;
    r.volume_total = 1000;
    r
}

#[test]
fn the_walk_is_compared_with_the_volume() {
    let c = reconcile(&volume(3 << 20, 1 << 20)).unwrap();
    assert_eq!(
        c,
        Reconciliation { walked_physical: 3 << 20, volume_used: 1 << 20, volume_total: 1000, delta: 2 << 20 }
    );
    assert_eq!(
        c.explain(),
        "walk exceeds volume by 2.00 MiB — clone blocks counted once per file, plus system-volume blocks shared \
         with the seal"
    );
    let d = reconcile(&volume(1, 5)).unwrap();
    assert_eq!(d.delta, -4);
    assert_eq!(
        d.explain(),
        "volume exceeds walk by 4 B — snapshots, purgeable caches and filesystem metadata that no live file \
         accounts for"
    );
    assert_eq!(reconcile(&volume(5, 0)), None);
    let mut sub = volume(5, 5);
    assert!(reconcile(&sub).unwrap().explain().starts_with("volume exceeds walk by 0 B"));
    sub.root_is_volume_root = false;
    assert_eq!(reconcile(&sub), None);
}

#[test]
fn snapshots_are_suspected_above_a_quarter() {
    let hint = |pinned: u64, physical: u64| {
        let mut r = volume(physical, 0);
        r.tree.nodes[0].size.shared_snapshot = pinned;
        snapshot_hint(&r)
    };
    assert!(!hint(25, 100).likely);
    assert!(hint(26, 100).likely);
    assert!(!hint(0, 0).likely);
    assert!(!hint(1, 0).likely);
    assert!(hint(u64::MAX, u64::MAX).likely);
    assert!(hint(26, 100).message().unwrap().starts_with("26 B (26%) of allocated bytes"));
    assert_eq!(hint(25, 100).message(), None);
}

#[test]
fn a_partial_scan_is_told() {
    let mut r = volume(1, 1);
    assert!(!is_partial(&r));
    r.stats.errors = 1;
    assert!(is_partial(&r));
    r.stats.errors = 0;
    r.tree.nodes[0].unknown_below = 1;
    assert!(is_partial(&r));
}

#[test]
fn nodes_are_listed_with_a_sign() {
    let mut n = *volume(1, 1).tree.node(0);
    assert_eq!(mark(&n), ' ');
    n.unknown_below = 2;
    assert_eq!(mark(&n), '~');
    n.set_state(State::Error);
    assert_eq!(mark(&n), '!');
}

#[test]
fn the_largest_come_first() {
    let r = three_clones();
    assert_eq!(largest(&r.tree, Kind::Dir, 20), vec![0, 1]);
    assert_eq!(largest(&r.tree, Kind::Dir, 1), vec![0]);
    let files = largest(&r.tree, Kind::File, 20);
    assert_eq!(files.len(), 4);
    assert_eq!(files[3], 3);
    assert_eq!(largest(&r.tree, Kind::File, 0), Vec::<u32>::new());
    assert_eq!(human(r.tree.node(files[0]).size.physical), "64.00 MiB");
}
