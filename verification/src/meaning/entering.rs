//! Which mounts, and so which devices, a walk enters.

use vstd::prelude::*;
use crate::paths;
use crate::plan;
use crate::plan::Plan;
use crate::sys::mounts;
use crate::sys::mounts::{Mount, SkipReason};

verus! {

/// The volume is attached to this machine for good: local, neither automounted nor
/// removable, and no snapshot but that which the root of the file system is.
pub open spec fn is_settled(m: Mount) -> bool {
    &&& m.flags & 0x1000u32 != 0
    &&& m.flags & 0x0040_0000u32 == 0
    &&& m.flags & 0x200u32 == 0
    &&& m.flags & 0x4000_0000u32 == 0 || m.flags & 0x4000u32 != 0
}

/// The volume is of a kind that can be read.
pub open spec fn is_readable(m: Mount) -> bool {
    m.fstype@ == seq!['a', 'p', 'f', 's'] || m.fstype@ == seq!['h', 'f', 's']
}

/// A mount is entered just if it is attached for good and of a kind that can be
/// read.
pub proof fn law_which_mounts_are_entered(m: Mount)
    ensures
        m.refusal() is None <==> is_settled(m) && is_readable(m),
{
    reveal_strlit("apfs");
    reveal_strlit("hfs");
    assert("apfs"@ =~= seq!['a', 'p', 'f', 's']);
    assert("hfs"@ =~= seq!['h', 'f', 's']);
}

/// Each reason to stay out of a mount is true of it, and of several that are, the
/// first counts: snapshot, not local, automounted, removable, kind of volume.
pub proof fn law_the_reason_is_true(m: Mount)
    ensures
        ({
            let snapshot = m.flags & 0x4000_0000u32 != 0 && m.flags & 0x4000u32 == 0;
            let remote = m.flags & 0x1000u32 == 0;
            let auto = m.flags & 0x0040_0000u32 != 0;
            let removable = m.flags & 0x200u32 != 0;
            &&& m.refusal() == Some(SkipReason::SnapshotMount) <==> snapshot
            &&& m.refusal() == Some(SkipReason::NotLocal) <==> remote && !snapshot
            &&& m.refusal() == Some(SkipReason::Automounted) <==> auto && !remote && !snapshot
            &&& m.refusal() == Some(SkipReason::Removable) <==> removable && !auto && !remote
                && !snapshot
            &&& m.refusal() == Some(SkipReason::UnsupportedFs) <==> is_settled(m) && !is_readable(m)
        }),
{
    law_which_mounts_are_entered(m);
}

/// The answer on a mount goes by its flags and the kind of its volume alone: not by
/// where it is mounted, from what, or how full it is.
pub proof fn law_mounts_go_by_flags_and_kind(a: Mount, b: Mount)
    requires
        a.flags == b.flags,
        a.fstype@ == b.fstype@,
    ensures
        a.refusal() == b.refusal(),
{
}

/// The walk may go onto a device just if that is the root's, or some mount with it
/// is attached for good and of a kind that can be read. Where the device is unknown,
/// nothing is kept out.
pub proof fn law_which_devices_are_entered(
    p: Plan,
    table: Seq<Mount>,
    root: Seq<u8>,
    root_dev: i32,
    dev: i32,
)
    requires
        p.follows(table, root, root_dev),
    ensures
        p.lets_in(Some(dev)) <==> dev == root_dev || exists|i: int|
            0 <= i < table.len() && (#[trigger] table[i]).dev == dev && is_settled(table[i])
                && is_readable(table[i]),
        p.lets_in(None),
{
    assert forall|i: int| 0 <= i < table.len() implies ((#[trigger] table[i]).refusal() is None
        <==> is_settled(table[i]) && is_readable(table[i])) by {
        law_which_mounts_are_entered(table[i]);
    }
    assert(p.allowed_devs@.contains(dev) == plan::allowed(table, root_dev, dev));
    if p.lets_in(Some(dev)) && dev != root_dev {
        let i = choose|i: int|
            0 <= i < table.len() && (#[trigger] table[i]).refusal() is None && table[i].dev == dev;
        assert(table[i].dev == dev && is_settled(table[i]));
    }
}

/// The walk stays off the device of a removable volume, unless it began there or
/// another mount with that device may be entered.
pub proof fn law_removable_volumes_stay_closed(
    p: Plan,
    table: Seq<Mount>,
    root: Seq<u8>,
    root_dev: i32,
    k: int,
)
    requires
        p.follows(table, root, root_dev),
        0 <= k < table.len(),
        table[k].flags & 0x200u32 != 0,
        table[k].dev != root_dev,
        forall|i: int|
            0 <= i < table.len() && (#[trigger] table[i]).dev == table[k].dev && i != k ==> !(
            is_settled(table[i]) && is_readable(table[i])),
    ensures
        !p.lets_in(Some(table[k].dev)),
{
    law_which_devices_are_entered(p, table, root, root_dev, table[k].dev);
    assert(!is_settled(table[k]));
}

/// What a filter lets through are the items that meet the condition.
proof fn lemma_filtered(s: Seq<Mount>, pred: spec_fn(Mount) -> bool)
    ensures
        forall|m: Mount| #[trigger] s.filter(pred).contains(m) <==> s.contains(m) && pred(m),
    decreases s.len(),
{
    reveal(Seq::filter);
    let f = s.filter(pred);
    if s.len() > 0 {
        let d = s.drop_last();
        let x = s.last();
        let g = d.filter(pred);
        lemma_filtered(d, pred);
        assert forall|m: Mount| #[trigger] f.contains(m) <==> s.contains(m) && pred(m) by {
            assert(g.contains(m) <==> d.contains(m) && pred(m));
            assert(s =~= d.push(x));
            lemma_pushed(d, x, m);
            lemma_pushed(g, x, m);
        }
    }
}

proof fn lemma_pushed(s: Seq<Mount>, x: Mount, m: Mount)
    ensures
        s.push(x).contains(m) <==> s.contains(m) || m == x,
{
    if s.contains(m) {
        let k = choose|k: int| 0 <= k < s.len() && s[k] == m;
        assert(s.push(x)[k] == m);
    }
    assert(s.push(x)[s.len() as int] == x);
    if s.push(x).contains(m) && m != x {
        let k = choose|k: int| 0 <= k < s.push(x).len() && s.push(x)[k] == m;
        assert(s[k] == m);
    }
}

/// The mount points that a walk from the root leaves alone are just those of the
/// mounts that may be entered on the root's own device, other than the root.
pub proof fn law_which_mount_points_are_left_alone(
    p: Plan,
    table: Seq<Mount>,
    root: Seq<u8>,
    root_dev: i32,
    path: Seq<u8>,
)
    requires
        p.follows(table, root, root_dev),
    ensures
        p.in_group(path) <==> exists|i: int|
            0 <= i < table.len() && (#[trigger] table[i]).dev == root_dev && is_settled(table[i])
                && is_readable(table[i]) && !paths::same(table[i].on@, root) && paths::same(
                table[i].on@,
                path,
            ),
{
    let pred = |m: Mount| plan::groups_with(m, root, root_dev);
    let kept = table.filter(pred);
    let paths = plan::group_paths(table, root, root_dev);
    let held = paths::contents(p.group_mounts@);
    assert(held == paths);
    assert forall|i: int| 0 <= i < table.len() implies ((#[trigger] table[i]).refusal() is None
        <==> is_settled(table[i]) && is_readable(table[i])) by {
        law_which_mounts_are_entered(table[i]);
    }
    lemma_filtered(table, pred);
    if p.in_group(path) {
        let k = choose|k: int|
            0 <= k < p.group_mounts@.len() && paths::same(
                (#[trigger] p.group_mounts@[k])@,
                path,
            );
        assert(held[k] == p.group_mounts@[k]@);
        assert(paths[k] == kept[k].on@);
        assert(kept.contains(kept[k]));
        assert(table.contains(kept[k]) && pred(kept[k]));
        let i = choose|i: int| 0 <= i < table.len() && table[i] == kept[k];
        assert(table[i].dev == root_dev);
    }
    if exists|i: int|
        0 <= i < table.len() && (#[trigger] table[i]).dev == root_dev && is_settled(table[i])
            && is_readable(table[i]) && !paths::same(table[i].on@, root) && paths::same(
            table[i].on@,
            path,
        ) {
        let i = choose|i: int|
            0 <= i < table.len() && (#[trigger] table[i]).dev == root_dev && is_settled(table[i])
                && is_readable(table[i]) && !paths::same(table[i].on@, root) && paths::same(
                table[i].on@,
                path,
            );
        assert(pred(table[i]));
        assert(kept.contains(table[i]));
        let k = choose|k: int| 0 <= k < kept.len() && kept[k] == table[i];
        assert(paths[k] == table[i].on@);
        assert(p.group_mounts@.len() == held.len());
        assert(held[k] == p.group_mounts@[k]@);
    }
}

/// The mounts that are not entered are all noted, in the order of the table, with
/// where they are, their devices and why; no other is.
pub proof fn law_every_refusal_is_noted(
    p: Plan,
    table: Seq<Mount>,
    root: Seq<u8>,
    root_dev: i32,
)
    requires
        p.follows(table, root, root_dev),
    ensures
        ({
            let out = table.filter(|m: Mount| !(is_settled(m) && is_readable(m)));
            &&& p.skipped@.len() == out.len()
            &&& p.refused@.len() == out.len()
            &&& forall|k: int|
                0 <= k < out.len() ==> {
                    &&& (#[trigger] p.skipped@[k]).0@ == out[k].on@
                    &&& p.skipped@[k].1@ == mounts::reason_text(p.refused@[k].1)
                    &&& p.refused@[k].0 == out[k].dev
                    &&& out[k].refusal() == Some(p.refused@[k].1)
                }
        }),
{
    let pred = |m: Mount| m.refusal() is Some;
    let kept = plan::refusals(table);
    assert forall|m: Mount| pred(m) == !(is_settled(m) && is_readable(m)) by {
        law_which_mounts_are_entered(m);
    }
    assert(pred =~= (|m: Mount| !(is_settled(m) && is_readable(m))));
    let notes = plan::notes_of(p.skipped@);
    assert(notes.len() == p.skipped@.len());
    assert(notes.len() == kept.len());
    assert forall|k: int| 0 <= k < kept.len() implies {
        &&& (#[trigger] p.skipped@[k]).0@ == kept[k].on@
        &&& p.skipped@[k].1@ == mounts::reason_text(p.refused@[k].1)
        &&& p.refused@[k].0 == kept[k].dev
        &&& kept[k].refusal() == Some(p.refused@[k].1)
    } by {
        assert(notes[k] == plan::skip_notes(table)[k]);
        lemma_filtered(table, pred);
        assert(kept.contains(kept[k]));
    }
}

/// The plan knows whether the root is where a volume is mounted, entered or not.
pub proof fn law_the_root_of_a_volume_is_known(
    p: Plan,
    table: Seq<Mount>,
    root: Seq<u8>,
    root_dev: i32,
)
    requires
        p.follows(table, root, root_dev),
    ensures
        p.root_is_volume_root <==> exists|i: int|
            0 <= i < table.len() && paths::same((#[trigger] table[i]).on@, root),
{
}

/// The reason given for a device is that of the first note on it, and zero where
/// there is none.
pub proof fn law_the_first_note_gives_the_reason(refused: Seq<(i32, SkipReason)>, dev: i32)
    ensures
        forall|k: int|
            0 <= k < refused.len() && (#[trigger] refused[k]).0 == dev && (forall|j: int|
                0 <= j < k ==> (#[trigger] refused[j]).0 != dev) ==> plan::reason_from(
                refused,
                dev,
                0,
            ) == mounts::reason_number(refused[k].1),
        (forall|k: int| 0 <= k < refused.len() ==> (#[trigger] refused[k]).0 != dev)
            ==> plan::reason_from(refused, dev, 0) == 0,
{
    assert forall|k: int|
        0 <= k < refused.len() && (#[trigger] refused[k]).0 == dev && (forall|j: int|
            0 <= j < k ==> (#[trigger] refused[j]).0 != dev) implies plan::reason_from(
        refused,
        dev,
        0,
    ) == mounts::reason_number(refused[k].1) by {
        lemma_skip_to(refused, dev, 0, k);
    }
    if forall|k: int| 0 <= k < refused.len() ==> (#[trigger] refused[k]).0 != dev {
        lemma_skip_to(refused, dev, 0, refused.len() as int);
    }
}

proof fn lemma_skip_to(refused: Seq<(i32, SkipReason)>, dev: i32, i: int, k: int)
    requires
        0 <= i <= k <= refused.len(),
        forall|j: int| i <= j < k ==> (#[trigger] refused[j]).0 != dev,
    ensures
        plan::reason_from(refused, dev, i) == plan::reason_from(refused, dev, k),
    decreases k - i,
{
    if i < k {
        lemma_skip_to(refused, dev, i + 1, k);
    }
}

} // verus!
