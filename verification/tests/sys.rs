use std::path::Path;

use disk_scanner::paths::{join, same_path};
use disk_scanner::plan::Plan;
use disk_scanner::sys::iopolicy::{harden_process, Policies};
use disk_scanner::sys::mounts::{cstr, mount_of, volume_used, Mount, RawMount, SkipReason};
use disk_scanner::sys::tcc::{app_label, label_in, Climb, PROBE, SETTINGS_URL};
use disk_scanner::{full_disk_access, Access};

const LOCAL: u32 = 0x1000;
const ROOTFS: u32 = 0x4000;
const REMOVABLE: u32 = 0x200;
const AUTOMOUNTED: u32 = 0x40_0000;
const SNAPSHOT: u32 = 0x4000_0000;

fn mount(on: &str, fstype: &str, flags: u32, dev: i32) -> Mount {
    Mount {
        on: on.as_bytes().to_vec(),
        from: "/dev/disk".to_string(),
        fstype: fstype.to_string(),
        flags,
        dev,
        total_bytes: 0,
        free_bytes: 0,
    }
}

#[test]
fn mounts_are_classified() {
    assert_eq!(mount("/", "apfs", LOCAL | ROOTFS | SNAPSHOT, 1).classify(), Ok(()));
    assert_eq!(mount("/Volumes/h", "hfs", LOCAL, 1).classify(), Ok(()));
    assert_eq!(mount("/s", "apfs", LOCAL | SNAPSHOT, 1).classify(), Err(SkipReason::SnapshotMount));
    assert_eq!(mount("/n", "smbfs", 0, 1).classify(), Err(SkipReason::NotLocal));
    assert_eq!(
        mount("/a", "apfs", LOCAL | AUTOMOUNTED | REMOVABLE, 1).classify(),
        Err(SkipReason::Automounted)
    );
    assert_eq!(mount("/r", "apfs", LOCAL | REMOVABLE, 1).classify(), Err(SkipReason::Removable));
    assert_eq!(mount("/dev", "devfs", LOCAL, 1).classify(), Err(SkipReason::UnsupportedFs));
}

#[test]
fn reasons_in_words_and_numbers() {
    let all = [
        SkipReason::NotLocal,
        SkipReason::Removable,
        SkipReason::SnapshotMount,
        SkipReason::Automounted,
        SkipReason::UnsupportedFs,
    ];
    assert_eq!(
        all.map(|r| r.as_str()),
        [
            "network or FUSE mount",
            "removable/external volume",
            "APFS snapshot mount",
            "automounted (autofs)",
            "unsupported filesystem"
        ]
    );
    assert_eq!(all.map(|r| r.code()), [0, 1, 2, 3, 4]);
}

#[test]
fn text_ends_at_the_nul() {
    assert_eq!(cstr(b"apfs\0junk"), "apfs");
    assert_eq!(cstr(b"no end"), "no end");
    assert_eq!(cstr(b"\0"), "");
    assert_eq!(cstr(b"a\xffb\0"), "a\u{fffd}b");
}

fn raw(blocks: u64, free: u64, size: u32) -> RawMount {
    RawMount {
        on: b"/Volumes/X\0\0\0".to_vec(),
        from: b"/dev/disk3s1\0".to_vec(),
        fstype: b"apfs\0".to_vec(),
        flags: LOCAL,
        dev: Some(5),
        blocks,
        free_blocks: free,
        block_size: size,
    }
}

#[test]
fn an_entry_of_the_mount_table_is_read() {
    let m = mount_of(&raw(100, 40, 4096)).unwrap();
    assert_eq!(m.on, b"/Volumes/X");
    assert_eq!(m.from, "/dev/disk3s1");
    assert_eq!(m.fstype, "apfs");
    assert_eq!((m.flags, m.dev, m.total_bytes, m.free_bytes), (LOCAL, 5, 409600, 163840));
    let mut unknown = raw(1, 1, 1);
    unknown.dev = None;
    assert_eq!(mount_of(&unknown).unwrap().dev, -1);
    assert!(mount_of(&raw(u64::MAX, 0, 2)).is_none());
    assert!(mount_of(&raw(0, u64::MAX, 2)).is_none());
}

#[test]
fn usage_of_a_volume() {
    assert_eq!(volume_used(100, 40, 4096), Some((60 * 4096, 409600)));
    assert_eq!(volume_used(1, 2, 4096), None);
    assert_eq!(volume_used(u64::MAX, 0, 2), None);
    assert_eq!(volume_used(0, 0, 0), Some((0, 0)));
}

#[test]
fn access_goes_by_the_error_number() {
    assert_eq!(full_disk_access(Ok(())), Access::Full);
    assert_eq!(full_disk_access(Err(Some(libc::EPERM))), Access::Denied);
    assert_eq!(full_disk_access(Err(Some(libc::EACCES))), Access::Unknown);
    assert_eq!(full_disk_access(Err(Some(libc::ENOENT))), Access::Unknown);
    assert_eq!(full_disk_access(Err(None)), Access::Unknown);
    assert_eq!(PROBE, "/Library/Application Support/com.apple.TCC/TCC.db");
    assert!(SETTINGS_URL.ends_with("?Privacy_AllFiles"));
}

#[test]
fn the_label_of_an_application() {
    assert_eq!(
        app_label(b"/Applications/iTerm.app/Contents/MacOS/iTerm2").unwrap(),
        "iTerm (/Applications/iTerm.app)"
    );
    assert_eq!(
        app_label("/Applications/Caf\u{e9} Tool.app/x.app/y".as_bytes()).unwrap(),
        "Caf\u{e9} Tool (/Applications/Caf\u{e9} Tool.app)"
    );
    assert_eq!(app_label(b"/x/.app/bin").unwrap(), ".app (/x/.app)");
    assert_eq!(app_label(b"rel.app/bin").unwrap(), "rel (rel.app)");
    assert_eq!(label_in("/a.b/My.Tool.app/x").unwrap(), "My.Tool (/a.b/My.Tool.app)");
    assert_eq!(app_label(b"/x\xff.app/y").unwrap(), "x\u{fffd} (/x\u{fffd}.app)");
    assert_eq!(app_label(b"/bin/zsh"), None);
    assert_eq!(app_label(b"/Applications/iTerm.app"), None);
    assert_eq!(app_label(b""), None);
}

#[test]
fn climbing_the_processes_ends() {
    let mut c = Climb::start(500);
    assert!(!c.go_on(None));
    assert!(!c.go_on(Some(1)));
    assert!(!c.go_on(Some(500)));
    assert!(c.go_on(Some(400)));
    assert_eq!(c.pid, 400);
    let mut steps = 1;
    while c.go_on(Some(400 + steps)) {
        steps += 1;
    }
    assert_eq!(steps, 23);
}

#[test]
fn policies_go_by_the_return_codes() {
    assert_eq!(harden_process(0, -1), Policies { dataless_suppressed: true, triggers_suppressed: false });
    assert_eq!(harden_process(-1, 0), Policies { dataless_suppressed: false, triggers_suppressed: true });
    assert_eq!(Policies::default(), harden_process(-1, -1));
}

#[test]
fn paths_are_compared_by_component() {
    let samples = [
        "", "/", "//", ".", "./", "a", "./a", "a/", "a//b", "a/./b", "a/b", "/a", "//a", "/./a", "/a/.", "..", "../a",
        "/..", "a/..", ".a", "..a", "/System/Volumes/Data", "/System//Volumes/./Data/",
    ];
    for a in samples {
        for b in samples {
            assert_eq!(
                same_path(a.as_bytes(), b.as_bytes()),
                Path::new(a) == Path::new(b),
                "{a:?} and {b:?}"
            );
        }
    }
}

#[test]
fn joining_does_not_double_a_slash() {
    assert_eq!(join(b"/", b"Volumes"), b"/Volumes");
    assert_eq!(join(b"/a", b"b"), b"/a/b");
    assert_eq!(join(b"/a/", b"b"), b"/a/b");
}

#[test]
fn a_plan_follows_the_mount_table() {
    let table = vec![
        mount("/", "apfs", LOCAL | ROOTFS | SNAPSHOT, 1),
        mount("/dev", "devfs", LOCAL, 2),
        mount("/System/Volumes/Data", "apfs", LOCAL, 1),
        mount("/Volumes/Disk", "apfs", LOCAL, 3),
        mount("/Volumes/Backup", "apfs", LOCAL | REMOVABLE, 4),
        mount("/Volumes/Share", "smbfs", 0, 4),
    ];
    let p = Plan::new(&table, b"/", 1);
    assert!(p.root_is_volume_root);
    assert!(p.admits(Some(1)) && p.admits(Some(3)) && p.admits(None));
    assert!(!p.admits(Some(2)) && !p.admits(Some(4)) && !p.admits(Some(99)));
    assert_eq!(p.group_mounts, vec![b"/System/Volumes/Data".to_vec()]);
    assert!(p.is_group_mount(b"/System//Volumes/Data/"));
    assert!(!p.is_group_mount(b"/System/Volumes"));
    assert_eq!(
        p.skipped,
        vec![
            (b"/dev".to_vec(), "unsupported filesystem"),
            (b"/Volumes/Backup".to_vec(), "removable/external volume"),
            (b"/Volumes/Share".to_vec(), "network or FUSE mount"),
        ]
    );
    assert_eq!(p.reason_code(2), 4);
    assert_eq!(p.reason_code(4), 1);
    assert_eq!(p.reason_code(99), 0);
    assert_eq!((p.refuses(None), p.refuses(Some(3)), p.refuses(Some(2))), (None, None, Some(4)));
    assert_eq!((p.refuses(Some(4)), p.refuses(Some(99))), (Some(1), Some(0)));
    let q = Plan::new(&table, b"/Users/me", 7);
    assert!(!q.root_is_volume_root);
    assert!(q.admits(Some(7)) && q.admits(Some(1)));
    assert!(q.group_mounts.is_empty());
    let data = Plan::new(&table, b"/System/Volumes/Data/", 1);
    assert!(data.root_is_volume_root);
    assert_eq!(data.group_mounts, vec![b"/".to_vec()]);
}
