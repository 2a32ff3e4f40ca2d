use std::collections::HashMap;

use disk_scanner::ffi::{
    column_of, ds_children, ds_fda_settings_url, ds_full_disk_access, ds_human, ds_name, ds_node_count, ds_parent,
    ds_path, ds_reclaim, ds_reconcile, ds_reconcile_text, ds_root, ds_row, ds_skipped, ds_skipped_count,
    ds_snapshot_hint, ds_summary, out_str, summary_with, DsReclaim, DsReconcile, DsRow, DsScan, DsSizes, DsSummary,
    SortCache,
    DS_SORT_EXCLUSIVE, DS_SORT_LOGICAL, DS_SORT_MTIME, DS_SORT_NAME, DS_SORT_PHYSICAL,
};
use disk_scanner::model::NO_NODE;
use disk_scanner::order::{bytes_precede, Column};
use disk_scanner::scan::Family;
use disk_scanner::sys::iopolicy::Policies;
use disk_scanner::sys::tcc::SETTINGS_URL;
use disk_scanner::treemap::{
    cut, head_within, is_nestable, leaf_block, physical_sum, tail_block, tile, tiles, Block, Cut,
};
use disk_scanner::{Access, Kind, ScanResult, State, Stats, Tree};

fn scan() -> DsScan {
    let mut t = Tree::new();
    t.push(b"/", NO_NODE, Kind::Dir, State::Scanned);
    let rows: [(&str, u64, u64, u64, i64); 5] =
        [("b", 5, 1, 9, 3), ("a", 7, 0, 2, 2), ("d", 0, 0, 0, -4), ("c", 6, 3, 1, 5), ("B", 1, 2, 4, 1)];
    for (i, (name, physical, exclusive, logical, mtime)) in rows.iter().enumerate() {
        t.push(name.as_bytes(), 0, Kind::File, State::Scanned);
        let n = &mut t.nodes[i + 1];
        n.size.physical = *physical;
        n.size.exclusive = *exclusive;
        n.size.logical = *logical;
        n.mtime = *mtime;
    }
    t.nodes[0].first_child = 1;
    t.nodes[0].child_count = 5;
    t.nodes[3].state = State::DeniedPerm;
    t.nodes[4].hardlink_alias = true;
    t.rollup();
    DsScan {
        r: ScanResult {
            tree: t,
            stats: Stats { dirs: 1, files: 5, elapsed_nanos: 1_500_000_000, ..Stats::default() },
            root_path: b"/".to_vec(),
            skipped: vec![(b"/Volumes/X".to_vec(), "network or FUSE mount")],
            families: HashMap::from([(3, Family { refcnt: 2, seen: 2, shared_bytes: 11 })]),
            clone_of: HashMap::from([(2, 3), (4, 3)]),
            policies: Policies::default(),
            volume_used: 9,
            volume_total: 100,
            root_is_volume_root: true,
            cancelled: true,
        },
    }
}

fn ids(rows: Vec<DsRow>) -> Vec<u32> {
    rows.iter().map(|r| r.node).collect()
}

#[test]
fn layout() {
    println!("DsSizes {} {}", std::mem::size_of::<DsSizes>(), std::mem::align_of::<DsSizes>());
    println!("DsRow {} {}", std::mem::size_of::<DsRow>(), std::mem::align_of::<DsRow>());
    println!("DsReclaim {} {}", std::mem::size_of::<DsReclaim>(), std::mem::align_of::<DsReclaim>());
    println!("DsSummary {} {}", std::mem::size_of::<DsSummary>(), std::mem::align_of::<DsSummary>());
    println!("DsReconcile {} {}", std::mem::size_of::<DsReconcile>(), std::mem::align_of::<DsReconcile>());
}

#[test]
fn nothing_is_told_without_a_scan() {
    let mut c = SortCache::new();
    assert_eq!(ds_node_count(None), 0);
    assert_eq!(ds_parent(None, 0), NO_NODE);
    assert_eq!(ds_row(None, 0), None);
    assert!(ds_name(None, 0).is_empty() && ds_path(None, 0).is_empty());
    assert!(ds_children(None, &mut c, 0, 0, false, 0, 9).is_empty());
    assert_eq!(ds_reclaim(None, &[0]), None);
    assert_eq!(ds_summary(None), None);
    assert_eq!(ds_reconcile(None), None);
    assert_eq!(ds_reconcile_text(None), "");
    assert_eq!(ds_snapshot_hint(None), "");
    assert_eq!(ds_skipped_count(None), 0);
    assert_eq!(ds_skipped(None, 0), None);
}

#[test]
fn a_stale_id_gets_a_neutral_answer() {
    let s = scan();
    let mut c = SortCache::new();
    assert!(s.valid(5) && !s.valid(6));
    assert_eq!(ds_parent(Some(&s), 6), NO_NODE);
    assert_eq!(ds_row(Some(&s), NO_NODE), None);
    assert!(ds_name(Some(&s), 6).is_empty() && ds_path(Some(&s), 6).is_empty());
    assert!(ds_children(Some(&s), &mut c, 6, 0, false, 0, 9).is_empty());
    assert!(c.entry.is_none());
    assert_eq!(ds_skipped(Some(&s), 1), None);
}

#[test]
fn rows_tell_of_nodes() {
    let s = scan();
    assert_eq!((ds_root(), ds_node_count(Some(&s)), ds_parent(Some(&s), 3)), (0, 6, 0));
    assert_eq!(ds_name(Some(&s), 4), b"c");
    assert_eq!(ds_path(Some(&s), 4), b"/c");
    let r = ds_row(Some(&s), 4).unwrap();
    assert_eq!(
        r,
        DsRow {
            node: 4,
            child_count: 0,
            unknown_below: 0,
            kind: 1,
            state: 0,
            hardlink_alias: 1,
            is_clone: 1,
            mtime: 5,
            size: DsSizes {
                logical: 1,
                physical: 6,
                exclusive: 3,
                shared_clones: 0,
                shared_snapshot: 0,
                sparse_saving: 0
            },
        }
    );
    let d = ds_row(Some(&s), 3).unwrap();
    assert_eq!((d.state, d.is_clone, d.unknown_below), (2, 0, 1));
}

#[test]
fn children_come_in_the_order_asked_for() {
    let s = scan();
    let mut c = SortCache::new();
    let mut get = |sort: i32, descending: bool| ids(ds_children(Some(&s), &mut c, 0, sort, descending, 0, 99));
    assert_eq!(get(DS_SORT_PHYSICAL, false), vec![3, 5, 1, 4, 2]);
    assert_eq!(get(DS_SORT_PHYSICAL, true), vec![2, 4, 1, 5, 3]);
    assert_eq!(get(12345, true), vec![2, 4, 1, 5, 3]);
    assert_eq!(get(DS_SORT_LOGICAL, true), vec![1, 5, 2, 4, 3]);
    assert_eq!(get(DS_SORT_NAME, false), vec![5, 2, 1, 4, 3]);
    assert_eq!(get(DS_SORT_MTIME, false), vec![3, 5, 2, 1, 4]);
    let e = get(DS_SORT_EXCLUSIVE, true);
    assert_eq!(e[..3], [4, 5, 1]);
    assert_eq!(column_of(DS_SORT_NAME), Column::Name);
}

#[test]
fn windows_show_every_child_once() {
    let s = scan();
    let mut c = SortCache::new();
    let whole = ids(ds_children(Some(&s), &mut c, 0, DS_SORT_EXCLUSIVE, true, 0, 99));
    let mut seen = Vec::new();
    for offset in [0, 2, 4, 6] {
        seen.extend(ids(ds_children(Some(&s), &mut c, 0, DS_SORT_EXCLUSIVE, true, offset, 2)));
    }
    assert_eq!(seen, whole);
    assert!(ds_children(Some(&s), &mut c, 0, 0, true, 0, 0).is_empty());
    assert!(ds_children(Some(&s), &mut c, 1, 0, true, 0, 5).is_empty());
    assert_eq!(c.entry.as_ref().unwrap().node, 1);
}

#[test]
fn equal_children_stand_in_one_order() {
    let mut s = scan();
    for n in &mut s.r.tree.nodes[1..] {
        n.mtime = 7;
    }
    s.r.tree.nodes[3].mtime = 6;
    for offset in 0..5 {
        for cap in 1..6 {
            for descending in [false, true] {
                let mut fresh = SortCache::new();
                let mut one = vec![3, 1, 2, 4, 5];
                if descending {
                    one.reverse();
                }
                let got = ids(ds_children(Some(&s), &mut fresh, 0, DS_SORT_MTIME, descending, offset, cap));
                assert_eq!(got, one[offset..(offset + cap).min(5)]);
            }
        }
    }
}

#[test]
fn bytes_go_into_a_buffer_with_a_nul() {
    assert_eq!(out_str(b"abc", 10), b"abc\0");
    assert_eq!(out_str(b"abc", 4), b"abc\0");
    assert_eq!(out_str(b"abc", 3), b"ab\0");
    assert_eq!(out_str(b"abc", 1), b"\0");
    assert_eq!(out_str(b"abc", 0), b"");
    assert_eq!(out_str(b"", 5), b"\0");
}

#[test]
fn a_summary_of_a_scan() {
    let s = scan();
    let x = summary_with(&s.r, 77);
    assert_eq!((x.dirs, x.files, x.node_count, x.arena_bytes), (1, 5, 6, 77));
    assert_eq!((x.clone_reclaimable, x.clone_families_whole, x.clone_families_total), (11, 1, 1));
    assert_eq!((x.root.physical, x.root_unknown_below, x.skipped_mounts), (19, 1, 1));
    assert_eq!((x.cancelled, x.root_is_volume_root, x.elapsed_nanos), (1, 1, 1_500_000_000));
    let y = ds_summary(Some(&s)).unwrap();
    assert_eq!(DsSummary { arena_bytes: 77, ..y }, x);
    assert!(y.arena_bytes as usize >= 6 * std::mem::size_of::<disk_scanner::Node>() + 6);
}

#[test]
fn what_else_is_told_of_a_scan() {
    let s = scan();
    let x = ds_reclaim(Some(&s), &[2, 4]).unwrap();
    assert_eq!((x.bytes, x.from_exclusive, x.from_completed_families, x.families_completed), (14, 3, 11, 1));
    assert_eq!(
        ds_reconcile(Some(&s)),
        Some(DsReconcile { walked_physical: 19, volume_used: 9, volume_total: 100, delta: 10 })
    );
    assert!(ds_reconcile_text(Some(&s)).starts_with("walk exceeds volume by 10 B"));
    assert_eq!(ds_snapshot_hint(Some(&s)), "");
    assert_eq!(ds_skipped_count(Some(&s)), 1);
    assert_eq!(ds_skipped(Some(&s), 0), Some((b"/Volumes/X".to_vec(), "network or FUSE mount")));
    assert_eq!(ds_human(2048), "2.00 KiB");
    assert_eq!(ds_fda_settings_url(), SETTINGS_URL);
    assert_eq!([Access::Full, Access::Denied, Access::Unknown].map(ds_full_disk_access), [0, 1, 2]);
    let mut pinned = scan();
    pinned.r.tree.nodes[0].size.shared_snapshot = 10;
    assert!(ds_snapshot_hint(Some(&pinned)).starts_with("10 B (53%) of"));
}

#[test]
fn names_are_compared_byte_by_byte() {
    let words: [&[u8]; 6] = [b"", b"a", b"ab", b"b", b"B", b"\xff"];
    for a in words {
        for b in words {
            assert_eq!(bytes_precede(a, b), a <= b);
        }
    }
}

#[test]
fn tiles_are_drawn_from_the_largest_down() {
    let s = scan();
    let t = &s.r.tree;
    let ids = tiles(t, 0);
    assert_eq!(ids, vec![2, 4, 1, 5]);
    assert_eq!(physical_sum(t, &ids, 0), 19);
    assert_eq!(physical_sum(t, &ids, 2), 6);
    assert_eq!(physical_sum(t, &ids[..2], 0) + physical_sum(t, &ids, 2), physical_sum(t, &ids, 0));
    assert_eq!(physical_sum(t, &ids, 4), 0);
    assert!(tiles(t, 1).is_empty());
}

#[test]
fn a_block_is_left_for_the_others() {
    assert_eq!(head_within(5, 0, 100), 5);
    assert_eq!(head_within(5, 94, 100), 5);
    assert_eq!(head_within(5, 95, 100), 4);
    assert_eq!(head_within(5, 99, 100), 0);
    assert_eq!(head_within(5, 100, 100), 0);
    assert_eq!(head_within(5, 200, 100), 0);
}

#[test]
fn blocks_tell_of_nodes() {
    let s = scan();
    let t = &s.r.tree;
    assert!(is_nestable(t.node(0), 1, 2) && !is_nestable(t.node(0), 2, 2) && !is_nestable(t.node(1), 0, 9));
    let b = leaf_block(t, 0, 300, true);
    assert_eq!(
        b,
        Block {
            node: 0,
            physical: 19,
            exclusive: 6,
            pinned: 0,
            aggregated: 0,
            kind: 0,
            state: 0,
            incomplete: true,
            container: true,
            depth: 255,
        }
    );
    let a = tail_block(0, 6, 2, 1);
    assert_eq!((a.node, a.physical, a.aggregated, a.kind, a.state, a.depth), (0, 6, 2, 3, 0, 1));
    assert!(!a.incomplete && !a.container);
}

#[test]
fn tiles_are_drawn_alone_or_together() {
    let s = scan();
    let t = &s.r.tree;
    let ids = tiles(t, 0);
    let c = cut(t, &ids, 3, 0, 3);
    assert_eq!(c, Cut { head: 2, tail: 6, count: 2 });
    assert_eq!(cut(t, &ids, 4, 0, 100), Cut { head: 4, tail: 0, count: 0 });
    let (first, inside) = tile(t, 0, &ids, &c, 0, 1, 9, true);
    assert_eq!((first, inside), (leaf_block(t, 2, 1, false), None));
    let (rest, inside) = tile(t, 0, &ids, &c, 2, 1, 9, true);
    assert_eq!((rest, inside), (tail_block(0, 6, 2, 1), None));
}

#[test]
fn a_directory_is_drawn_around_its_children() {
    let mut t = Tree::new();
    t.push(b"/", NO_NODE, Kind::Dir, State::Scanned);
    t.push(b"d", 0, Kind::Dir, State::Scanned);
    t.push(b"f", 1, Kind::File, State::Scanned);
    t.nodes[0].first_child = 1;
    t.nodes[0].child_count = 1;
    t.nodes[1].first_child = 2;
    t.nodes[1].child_count = 1;
    t.nodes[2].size.physical = 5;
    t.rollup();
    let ids = tiles(&t, 0);
    let c = cut(&t, &ids, 1, 0, 9);
    let draw = |max_depth: u32, roomy: bool| tile(&t, 0, &ids, &c, 0, 0, max_depth, roomy);
    assert_eq!(draw(1, true), (leaf_block(&t, 1, 0, true), Some(1)));
    assert_eq!(draw(0, true), (leaf_block(&t, 1, 0, false), None));
    assert_eq!(draw(1, false), (leaf_block(&t, 1, 0, false), None));
}
