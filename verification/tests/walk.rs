use disk_scanner::model::ROOT;
use disk_scanner::plan::Plan;
use disk_scanner::report::try_reclaim;
use disk_scanner::scan::{err_state, sizes_of, Dedupe, Families, Family};
use disk_scanner::sys::attrlist::Entry;
use disk_scanner::sys::ffi::{
    EF_IS_SPARSE, EF_MAY_SHARE_BLOCKS, SF_DATALESS, UF_COMPRESSED, VDIR, VLNK, VREG,
};
use disk_scanner::sys::iopolicy::Policies;
use disk_scanner::sys::mounts::Mount;
use disk_scanner::walk::{Step, Task, Walk};
use disk_scanner::{Kind, Node, Options, ScanResult, Sizes, State, Stats};

fn object(name: &str, objtype: u32, fileid: u64) -> Entry {
    Entry { name: name.as_bytes().to_vec(), objtype, fileid, realfsid: 1, linkcount: 1, ..Entry::default() }
}

fn file(name: &str, fileid: u64, size: u64) -> Entry {
    Entry { data_length: size, alloc_size: size, private_size: size, ..object(name, VREG, fileid) }
}

fn dir(name: &str, fileid: u64) -> Entry {
    object(name, VDIR, fileid)
}

fn mount(on: &str, dev: i32, flags: u32) -> Mount {
    Mount {
        on: on.as_bytes().to_vec(),
        from: String::new(),
        fstype: "apfs".to_string(),
        flags,
        dev,
        total_bytes: 0,
        free_bytes: 0,
    }
}

fn start(root: &str) -> Walk {
    Walk::new(Plan::new(&Vec::new(), root.as_bytes(), 1), root.as_bytes())
}

fn task(w: &mut Walk) -> Task {
    match w.next(false) {
        Step::Run(t) => t,
        _ => panic!("nothing to do"),
    }
}

/// The next directory, on the device of the root.
fn entered(w: &mut Walk) -> Task {
    let t = task(w);
    w.enter(t, Some(1)).unwrap()
}

/// Walks a tree of listings, each under its path.
fn drive(mut w: Walk, listings: &[(&str, Vec<Entry>)]) -> Walk {
    while let Step::Run(t) = w.next(false) {
        let here = String::from_utf8(t.path.clone()).unwrap();
        let entries = match listings.iter().find(|(p, _)| *p == here) {
            Some((_, e)) => e.clone(),
            None => Vec::new(),
        };
        assert!(w.has_room(entries.len()));
        let t = w.enter(t, Some(1)).unwrap();
        w.expand(t, &entries, None);
    }
    assert!(w.is_over());
    w
}

fn finish(w: Walk, root: &str) -> ScanResult {
    assert!(w.tree.rollup_fits());
    w.finish(root.as_bytes().to_vec(), Policies::default(), None, 0, false)
}

fn run(root: &str, listings: &[(&str, Vec<Entry>)]) -> ScanResult {
    finish(drive(start(root), listings), root)
}

fn id_of(r: &ScanResult, name: &str) -> u32 {
    (0..r.tree.len() as u32).find(|&i| r.tree.name_str(i) == name).unwrap_or_else(|| panic!("no node named {name}"))
}

fn find<'a>(r: &'a ScanResult, name: &str) -> &'a Node {
    r.tree.node(id_of(r, name))
}

fn clone_of_family(name: &str, fileid: u64, size: u64) -> Entry {
    Entry {
        private_size: 0,
        cloneid: 77,
        clone_refcnt: 3,
        ext_flags: EF_MAY_SHARE_BLOCKS,
        ..file(name, fileid, size)
    }
}

#[test]
fn clones_are_identified_and_attributed() {
    const SZ: usize = 32 << 20;
    let listing = ["orig.bin", "c1.bin", "c2.bin"]
        .iter()
        .enumerate()
        .map(|(i, n)| clone_of_family(n, 10 + i as u64, SZ as u64))
        .collect();
    let r = run("/t", &[("/t", listing)]);
    let root = r.tree.node(ROOT);
    assert!(root.size.physical >= (SZ as u64) * 3, "expected >= 3x{SZ} physical, got {}", root.size.physical);
    assert!(
        root.size.exclusive < (SZ as u64),
        "clones should leave little exclusive, got {}",
        root.size.exclusive
    );
    assert!(
        root.size.shared_clones >= (SZ as u64) * 2,
        "expected clone-attributed sharing, got clones={} snapshot={}",
        root.size.shared_clones,
        root.size.shared_snapshot
    );
    assert_eq!(r.stats.clone_members, 3, "all three should be clone members");
    let whole: Vec<_> = r.families.values().filter(|f| f.refcnt == 3 && f.seen == 3).collect();
    assert_eq!(whole.len(), 1, "expected one complete 3-member family");
    assert_eq!(r.clone_of.len(), 3);
    assert_eq!(r.families[&77].shared_bytes, SZ as u64);
}

#[test]
fn diverged_clone_gains_exclusive_bytes() {
    const SZ: u64 = 16 << 20;
    let c1 = Entry {
        private_size: 4 << 20,
        cloneid: 5,
        clone_refcnt: 1,
        ext_flags: EF_MAY_SHARE_BLOCKS,
        ..file("c1.bin", 2, SZ)
    };
    let r = run("/t", &[("/t", vec![c1])]);
    let c = find(&r, "c1.bin");
    assert!(c.size.exclusive >= (4 << 20), "rewritten region should be exclusive, got {}", c.size.exclusive);
    assert!(c.size.shared_clones > 0, "the untouched remainder should still be shared");
    assert_eq!(c.size.shared_clones, 12 << 20);
}

#[test]
fn hardlinks_counted_once() {
    const SZ: usize = 8 << 20;
    let links = ["a.bin", "b.bin"].iter().map(|n| Entry { linkcount: 2, ..file(n, 4, SZ as u64) }).collect();
    let r = run("/t", &[("/t", links)]);
    let root = r.tree.node(ROOT);
    assert_eq!(r.stats.files, 2, "both links should appear as files");
    assert_eq!(r.stats.hardlink_aliases, 1, "exactly one should be folded");
    assert!(root.size.physical < (SZ as u64) * 2, "hardlink double-counted: {}", root.size.physical);
    assert!(root.size.physical >= SZ as u64);
    let counted = ["a.bin", "b.bin"].iter().filter(|n| find(&r, n).size.physical > 0).count();
    assert_eq!(counted, 1, "exactly one link should carry the bytes");
    let alias = ["a.bin", "b.bin"].iter().filter(|n| find(&r, n).hardlink_alias).count();
    assert_eq!(alias, 1);
    assert_eq!(r.dedupe_note(), "1 hardlink aliases folded");
}

#[test]
fn sparse_file_reports_holes() {
    let e = Entry { ext_flags: EF_IS_SPARSE, data_length: 1 << 30, ..file("sparse.bin", 3, 1 << 20) };
    let r = run("/t", &[("/t", vec![e])]);
    let n = find(&r, "sparse.bin");
    assert_eq!(n.size.logical, 1 << 30);
    assert!(n.size.physical < (16 << 20), "sparse file should allocate little, got {}", n.size.physical);
    assert!(n.size.sparse_saving > (1 << 29), "holes should be reported");
    assert_eq!(n.size.sparse_saving, (1 << 30) - (1 << 20));
    assert_eq!(r.stats.sparse, 1);
}

#[test]
fn rollup_is_exact() {
    let f = |i: u64| file(&format!("f{i}.bin"), 100 + i, (i + 1) * 100_000);
    let r = run(
        "/t",
        &[
            ("/t", vec![dir("a", 1), dir("b", 2), f(4)]),
            ("/t/a", vec![dir("x", 3), dir("y", 4), f(0)]),
            ("/t/b", vec![f(1)]),
            ("/t/a/x", vec![f(2)]),
            ("/t/a/y", vec![f(3)]),
        ],
    );
    let t2 = &r.tree;
    for id in 0..t2.len() as u32 {
        let n = t2.node(id);
        if !n.is_dir() {
            continue;
        }
        let mut sum = Sizes::default();
        for c in n.children() {
            sum.add(&t2.node(c).size);
        }
        assert_eq!(n.size, sum, "rollup mismatch at {:?}", t2.path(id));
    }
    assert_eq!(t2.node(ROOT).size.physical, 1_500_000);
    for n in &t2.nodes {
        assert_eq!(n.size.physical, n.size.exclusive + n.size.shared());
    }
}

#[test]
fn symlink_loops_are_safe() {
    let r = run(
        "/t",
        &[("/t", vec![object("loop", VLNK, 7), object("root", VLNK, 8), file("real.bin", 9, 4096)])],
    );
    assert_eq!(r.stats.symlinks, 2);
    assert_eq!(r.stats.dirs, 1, "no symlink should have been descended");
    assert_eq!(find(&r, "loop").kind(), Kind::Symlink);
}

#[test]
fn paths_round_trip() {
    let r = run(
        "/t",
        &[
            ("/t", vec![dir("sub", 1)]),
            ("/t/sub", vec![dir("déep", 2)]),
            ("/t/sub/déep", vec![file("leaf.bin", 3, 1000)]),
        ],
    );
    let leaf = id_of(&r, "leaf.bin");
    assert_eq!(r.tree.path(leaf), "/t/sub/déep/leaf.bin".as_bytes());
    assert_eq!(r.tree.node(leaf).size.logical, 1000);
    let whole = run("/", &[("/", vec![dir("Volumes", 1)])]);
    assert_eq!(whole.tree.path(1), b"/Volumes");
}

#[test]
fn a_task_carries_its_path() {
    let mut w = start("/r");
    let t = entered(&mut w);
    assert_eq!((t.id, t.path.as_slice()), (ROOT, b"/r".as_slice()));
    w.expand(t, &vec![dir("a", 1), file("f", 2, 5), dir("b", 3)], None);
    let b = task(&mut w);
    assert_eq!((b.id, b.path.as_slice()), (3, b"/r/b".as_slice()));
    assert_eq!(b.path, w.tree.path(b.id));
    let a = task(&mut w);
    assert_eq!((a.id, a.path.as_slice()), (1, b"/r/a".as_slice()));
}

#[test]
fn a_walk_waits_for_what_is_being_read() {
    let mut w = start("/r");
    let t = entered(&mut w);
    assert!(matches!(w.next(false), Step::Wait));
    assert!(!w.is_over());
    w.expand(t, &Vec::new(), None);
    assert!(matches!(w.next(false), Step::Quit));
    assert!(w.is_over());
}

#[test]
fn a_cancelled_walk_stops() {
    let mut w = start("/r");
    assert!(matches!(w.next(true), Step::Quit));
    assert!(w.is_over());
    let r = w.finish(b"/r".to_vec(), Policies::default(), Some((3, 4)), 9, true);
    assert!(r.cancelled);
    assert_eq!((r.volume_used, r.volume_total, r.stats.elapsed_nanos), (3, 4, 9));
    assert_eq!(r.root_path, b"/r");
}

#[test]
fn a_directory_is_descended_once() {
    let r = run(
        "/",
        &[
            ("/", vec![dir("Users", 5), dir("System", 6)]),
            ("/Users", vec![file("f", 7, 10)]),
            ("/System", vec![dir("Data", 5)]),
            ("/System/Data", vec![file("f", 7, 10)]),
        ],
    );
    assert_eq!(r.tree.node(ROOT).size.physical, 10);
    let again = find(&r, "Data");
    assert_eq!(again.state(), State::Skipped);
    assert_eq!(again.child_count, 0);
    assert_eq!(r.tree.node(ROOT).unknown_below, 1);
    assert_eq!(r.stats.dirs, 3);
}

#[test]
fn a_mount_of_the_volume_group_is_not_entered() {
    let table = vec![mount("/", 1, 0x5000), mount("/System/Volumes/Data", 1, 0x1000)];
    let w = Walk::new(Plan::new(&table, b"/", 1), b"/");
    let w = drive(
        w,
        &[
            ("/", vec![dir("System", 1)]),
            ("/System", vec![dir("Volumes", 2)]),
            ("/System/Volumes", vec![dir("Data", 3)]),
            ("/System/Volumes/Data", vec![file("f", 4, 10)]),
        ],
    );
    let r = finish(w, "/");
    assert!(r.root_is_volume_root);
    assert_eq!(r.tree.len(), 4);
    assert_eq!(find(&r, "Data").state(), State::Skipped);
    assert_eq!(find(&r, "Data").detail, 0);
}

#[test]
fn another_device_is_marked_with_the_reason() {
    let table = vec![mount("/", 1, 0x5000), mount("/Volumes/USB", 2, 0x1200)];
    let mut w = Walk::new(Plan::new(&table, b"/", 1), b"/");
    let t = entered(&mut w);
    assert!(w.plan.admits(Some(1)));
    w.expand(t, &vec![dir("USB", 9)], None);
    let t = task(&mut w);
    assert!(!w.plan.admits(Some(2)));
    assert!(w.enter(t, Some(2)).is_none());
    assert!(matches!(w.next(false), Step::Quit));
    let r = finish(w, "/");
    assert_eq!(find(&r, "USB").state(), State::Skipped);
    assert_eq!(find(&r, "USB").detail, 1);
    assert_eq!(r.stats.skipped_mounts, 1);
    assert_eq!(r.skipped, vec![(b"/Volumes/USB".to_vec(), "removable/external volume")]);
    assert_eq!(r.tree.node(ROOT).unknown_below, 1);
}

#[test]
fn a_directory_is_read_only_where_the_plan_lets_in() {
    let mut w = start("/r");
    let t = entered(&mut w);
    w.expand(t, &vec![dir("near", 1), dir("far", 2), dir("unsure", 3), dir("told", 4)], None);
    let t = task(&mut w);
    w.mark_skipped(t, 3);
    let t = task(&mut w);
    let t = w.enter(t, None).unwrap();
    assert_eq!(t.path, b"/r/unsure");
    w.expand(t, &Vec::new(), None);
    let t = task(&mut w);
    assert!(w.enter(t, Some(7)).is_none());
    let t = entered(&mut w);
    w.expand(t, &Vec::new(), None);
    assert!(matches!(w.next(false), Step::Quit));
    let r = finish(w, "/r");
    let state = |n: &str| (find(&r, n).state(), find(&r, n).detail);
    assert_eq!(state("near"), (State::Scanned, 0));
    assert_eq!(state("far"), (State::Skipped, 0));
    assert_eq!(state("unsure"), (State::Scanned, 0));
    assert_eq!(state("told"), (State::Skipped, 3));
    assert_eq!(r.stats.dirs, 3);
}

#[test]
fn refused_directories_are_marked() {
    let mut w = start("/r");
    let t = entered(&mut w);
    w.expand(t, &vec![dir("tcc", 1), dir("perm", 2), dir("gone", 3)], None);
    for errno in [libc::ENOENT, libc::EACCES, libc::EPERM] {
        let t = task(&mut w);
        w.mark_failed(t, errno);
    }
    assert!(matches!(w.next(false), Step::Quit));
    let r = finish(w, "/r");
    assert_eq!((find(&r, "tcc").state(), find(&r, "tcc").detail), (State::DeniedTcc, libc::EPERM));
    assert_eq!((find(&r, "perm").state(), find(&r, "perm").detail), (State::DeniedPerm, libc::EACCES));
    assert_eq!((find(&r, "gone").state(), find(&r, "gone").detail), (State::Error, libc::ENOENT));
    assert_eq!((r.stats.denied_tcc, r.stats.denied_perm, r.stats.errors, r.stats.dirs), (1, 1, 1, 1));
    assert_eq!(r.tree.node(ROOT).unknown_below, 3);
}

#[test]
fn an_entry_with_an_error_is_kept() {
    let bad = Entry { error: libc::EACCES as u32, ..file("bad", 1, 100) };
    let r = run("/r", &[("/r", vec![bad, file("good", 2, 7)])]);
    let n = find(&r, "bad");
    assert_eq!((n.kind(), n.state(), n.detail), (Kind::Other, State::DeniedPerm, libc::EACCES));
    assert_eq!(n.size, Sizes::default());
    assert_eq!((r.stats.errors, r.stats.files), (1, 1));
    assert_eq!(r.tree.node(ROOT).size.physical, 7);
    assert_eq!(r.tree.node(ROOT).unknown_below, 1);
}

#[test]
fn a_listing_that_breaks_off_is_not_fully_scanned() {
    let mut w = start("/r");
    let t = entered(&mut w);
    w.expand(t, &vec![file("f", 1, 7)], Some(libc::EIO));
    assert!(matches!(w.next(false), Step::Quit));
    let r = finish(w, "/r");
    let root = r.tree.node(ROOT);
    assert_eq!((root.state(), root.detail, root.child_count), (State::Error, libc::EIO, 1));
    assert_eq!(root.size.physical, 7);
    assert_eq!((r.stats.errors, r.stats.dirs), (1, 1));
    assert_eq!(root.unknown_below, 1);
}

#[test]
fn dots_are_passed_over() {
    let r = run("/r", &[("/r", vec![dir(".", 1), dir("..", 2), dir("", 3), dir("...", 4)])]);
    assert_eq!(r.tree.len(), 2);
    assert_eq!(r.tree.name(1), b"...");
}

#[test]
fn entries_of_all_kinds_are_counted() {
    let e = Entry { flags: SF_DATALESS | UF_COMPRESSED, mtime: 42, ext_flags: 0x1f0, ..file("f", 1, 3) };
    let socket = Entry { mtime: 9, ..object("sock", 6, 2) };
    let r = run("/r", &[("/r", vec![e, socket])]);
    let s = Stats { dirs: 1, files: 1, dataless: 1, compressed: 1, sparse: 1, clone_members: 1, ..Stats::default() };
    assert_eq!(r.stats, s);
    let f = find(&r, "f");
    assert_eq!((f.mtime, f.flags, f.ext_flags), (42, SF_DATALESS | UF_COMPRESSED, 0xf0));
    assert_eq!((find(&r, "sock").kind(), find(&r, "sock").mtime), (Kind::Other, 9));
}

#[test]
fn a_member_without_a_family_id_is_in_no_family() {
    let e = Entry { cloneid: 0, clone_refcnt: 2, private_size: 0, ..file("f", 1, 3) };
    let r = run("/r", &[("/r", vec![e])]);
    assert_eq!(r.stats.clone_members, 1);
    assert!(r.clone_of.is_empty());
    assert_eq!(r.families[&0].seen, 1);
}

#[test]
fn progress_counts_what_was_met() {
    let mut w = start("/r");
    let t = entered(&mut w);
    w.expand(t, &vec![file("f", 1, 7), file("g", 2, 8), dir("d", 3)], None);
    let p = w.progress();
    assert_eq!((p.dirs, p.files, p.physical), (1, 2, 15));
    let t = entered(&mut w);
    w.expand(t, &vec![file("h", 4, u64::MAX)], None);
    assert_eq!(w.progress().physical, 14);
    assert!(!w.tree.rollup_fits());
}

#[test]
fn the_figures_of_a_scan_fit() {
    let members = (0..3).map(|i| clone_of_family(&format!("c{i}"), i, 1 << 62)).collect();
    let w = drive(start("/r"), &[("/r", members)]);
    assert!(w.tree.rollup_fits());
    let r = finish(w, "/r");
    assert_eq!(r.tree.node(ROOT).size.shared_clones, 3 << 62);
    for sel in [vec![], vec![ROOT], vec![1], vec![1, 2], vec![1, 2, 3], vec![3, ROOT]] {
        assert!(try_reclaim(&r, &sel).is_some());
    }
    assert_eq!(try_reclaim(&r, &[ROOT]).unwrap().bytes, 1 << 62);
}

#[test]
fn counts_are_those_of_the_tree() {
    let links = (0..3).map(|i| Entry { linkcount: 3, ..file(&format!("l{i}"), 9, 5) }).collect();
    let r = run("/r", &[("/r", vec![dir("d", 1), object("s", VLNK, 2), file("f", 3, 1)]), ("/r/d", links)]);
    let count = |k: Kind| r.tree.nodes.iter().filter(|n| n.kind() == k).count() as u64;
    assert_eq!((r.stats.files, r.stats.symlinks), (count(Kind::File), count(Kind::Symlink)));
    assert_eq!((r.stats.files, r.stats.symlinks, r.stats.dirs), (4, 1, 2));
    let aliases = r.tree.nodes.iter().filter(|n| n.hardlink_alias).count() as u64;
    assert_eq!((r.stats.hardlink_aliases, aliases), (2, 2));
}

#[test]
fn there_is_room_for_as_many_ids_as_fit() {
    let w = start("/r");
    assert!(w.has_room(0xffff_fffe));
    assert!(!w.has_room(0xffff_ffff));
}

#[test]
fn an_object_is_claimed_once() {
    let mut d = Dedupe::new();
    assert!(d.claim(1, 2));
    assert!(!d.claim(1, 2));
    assert!(d.claim(2, 1));
    assert!(d.claim(-1, 2));
    assert!(d.claim(0, 2));
    assert!(!d.claim(-1, 2));
    assert!(d.claim(i64::MIN, u64::MAX));
}

#[test]
fn families_keep_the_largest_figures() {
    let mut f = Families::new();
    f.record(9, 0, 5);
    assert_eq!(f.by_id[&9], Family { refcnt: 1, seen: 1, shared_bytes: 5 });
    f.record(9, 4, 3);
    f.record(9, 2, 8);
    f.record(1, 2, 1);
    let m = f.drain();
    assert_eq!(m[&9], Family { refcnt: 4, seen: 3, shared_bytes: 8 });
    assert_eq!(m[&1], Family { refcnt: 2, seen: 1, shared_bytes: 1 });
    assert_eq!(m.len(), 2);
}

#[test]
fn sizes_are_split() {
    let e = Entry { private_size: 3, data_length: 50, ..file("f", 1, 10) };
    let pinned = Sizes {
        logical: 50,
        physical: 10,
        exclusive: 3,
        shared_clones: 0,
        shared_snapshot: 7,
        sparse_saving: 0,
    };
    assert_eq!(sizes_of(&e), pinned);
    let shared = Entry { clone_refcnt: 2, ..e.clone() };
    assert_eq!(sizes_of(&shared), Sizes { shared_clones: 7, shared_snapshot: 0, ..pinned });
    let more = Entry { private_size: 11, ..e };
    assert_eq!(sizes_of(&more), Sizes { exclusive: 10, shared_snapshot: 0, ..pinned });
}

#[test]
fn error_numbers_tell_who_refuses() {
    assert_eq!(err_state(libc::EPERM), State::DeniedTcc);
    assert_eq!(err_state(libc::EACCES), State::DeniedPerm);
    assert_eq!(err_state(libc::EIO), State::Error);
    assert_eq!(err_state(0), State::Error);
}

#[test]
fn options_go_by_the_cores() {
    assert_eq!(Options::for_cores(Some(1)).threads, 1);
    assert_eq!(Options::for_cores(Some(3)).threads, 3);
    assert_eq!(Options::for_cores(Some(8)).threads, 4);
    assert_eq!(Options::for_cores(None).threads, 4);
    assert_eq!(Options::for_cores(None).buf_size, 128 * 1024);
    let o = Options { threads: 0, buf_size: 1 };
    assert_eq!(o.workers(), 1);
    assert_eq!(o.with_threads(6).workers(), 6);
    assert_eq!(o.with_threads(6).with_threads(0).workers(), 6);
}
