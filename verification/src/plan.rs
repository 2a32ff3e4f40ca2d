//! Where a walk may go, decided beforehand from the mount table.

use std::collections::HashSet;

use vstd::prelude::*;
use vstd::slice::slice_to_vec;
use crate::paths;
use crate::sys::mounts;
use crate::sys::mounts::{Mount, SkipReason};

verus! {

broadcast use vstd::std_specs::hash::group_hash_axioms;

pub struct Plan {
    /// The devices that may be entered.
    pub allowed_devs: HashSet<i32>,
    /// The mount points inside the volume group of the root. What they hold is
    /// reached through firmlinks, so entering them would count it twice.
    pub group_mounts: Vec<Vec<u8>>,
    /// The mounts that are not entered, and why.
    pub skipped: Vec<(Vec<u8>, &'static str)>,
    /// Their devices, and why.
    pub refused: Vec<(i32, SkipReason)>,
    /// The root is a mount point.
    pub root_is_volume_root: bool,
}

/// The mount may be entered, and lies in the volume group of the root but is
/// not the root itself.
pub open spec fn groups_with(m: Mount, root: Seq<u8>, root_dev: i32) -> bool {
    m.refusal() is None && m.dev == root_dev && !paths::same(m.on@, root)
}

pub open spec fn group_paths(table: Seq<Mount>, root: Seq<u8>, root_dev: i32) -> Seq<Seq<u8>> {
    table.filter(|m: Mount| groups_with(m, root, root_dev)).map_values(|m: Mount| m.on@)
}

pub open spec fn refusals(table: Seq<Mount>) -> Seq<Mount> {
    table.filter(|m: Mount| m.refusal() is Some)
}

pub open spec fn skip_notes(table: Seq<Mount>) -> Seq<(Seq<u8>, Seq<char>)> {
    refusals(table).map_values(
        |m: Mount| (m.on@, mounts::reason_text(m.refusal()->0)),
    )
}

pub open spec fn refused_devs(table: Seq<Mount>) -> Seq<(i32, SkipReason)> {
    refusals(table).map_values(|m: Mount| (m.dev, m.refusal()->0))
}

pub open spec fn notes_of(v: Seq<(Vec<u8>, &'static str)>) -> Seq<(Seq<u8>, Seq<char>)> {
    v.map_values(|p: (Vec<u8>, &'static str)| (p.0@, p.1@))
}

/// A device may be entered if it is that of the root or of a mount that may be
/// entered.
pub open spec fn allowed(table: Seq<Mount>, root_dev: i32, dev: i32) -> bool {
    dev == root_dev || exists|i: int|
        0 <= i < table.len() && (#[trigger] table[i]).refusal() is None && table[i].dev == dev
}

/// The number of the reason in the first pair with this device, from place `i`
/// on, or zero.
pub open spec fn reason_from(refused: Seq<(i32, SkipReason)>, dev: i32, i: int) -> int
    decreases refused.len() - i,
{
    if i >= refused.len() {
        0
    } else if refused[i].0 == dev {
        mounts::reason_number(refused[i].1)
    } else {
        reason_from(refused, dev, i + 1)
    }
}

impl Plan {
    /// This is the plan for a walk from `root`.
    pub open spec fn follows(&self, table: Seq<Mount>, root: Seq<u8>, root_dev: i32) -> bool {
        &&& forall|d: i32|
            #![trigger self.allowed_devs@.contains(d)]
            self.allowed_devs@.contains(d) == allowed(table, root_dev, d)
        &&& paths::contents(self.group_mounts@) == group_paths(table, root, root_dev)
        &&& notes_of(self.skipped@) == skip_notes(table)
        &&& self.refused@ == refused_devs(table)
        &&& self.root_is_volume_root <==> exists|i: int|
            0 <= i < table.len() && paths::same((#[trigger] table[i]).on@, root)
    }

    /// A directory on this device, where that is known, may be entered.
    pub open spec fn lets_in(&self, dev: Option<i32>) -> bool {
        dev matches Some(d) ==> self.allowed_devs@.contains(d)
    }

    /// The path is a mount point inside the volume group of the root.
    pub open spec fn in_group(&self, path: Seq<u8>) -> bool {
        exists|i: int|
            0 <= i < self.group_mounts@.len() && paths::same(
                (#[trigger] self.group_mounts@[i])@,
                path,
            )
    }

    /// The plan for a walk from `root`, which lies on the device `root_dev`.
    pub fn new(table: &Vec<Mount>, root: &[u8], root_dev: i32) -> (r: Plan)
        ensures
            r.follows(table@, root@, root_dev),
    {
        let mut allowed_devs: HashSet<i32> = HashSet::new();
        let mut group_mounts: Vec<Vec<u8>> = Vec::new();
        let mut skipped: Vec<(Vec<u8>, &'static str)> = Vec::new();
        let mut refused: Vec<(i32, SkipReason)> = Vec::new();
        let mut root_is_volume_root = false;
        allowed_devs.insert(root_dev);
        let mut i: usize = 0;
        proof {
            reveal(Seq::filter);
            assert(table@.take(0) =~= Seq::empty());
            assert(paths::contents(group_mounts@) =~= group_paths(table@.take(0), root@, root_dev));
            assert(notes_of(skipped@) =~= skip_notes(table@.take(0)));
            assert(refused@ =~= refused_devs(table@.take(0)));
        }
        while i < table.len()
            invariant
                i <= table@.len(),
                forall|d: i32|
                    #![trigger allowed_devs@.contains(d)]
                    allowed_devs@.contains(d) == allowed(table@.take(i as int), root_dev, d),
                paths::contents(group_mounts@) == group_paths(
                    table@.take(i as int),
                    root@,
                    root_dev,
                ),
                notes_of(skipped@) == skip_notes(table@.take(i as int)),
                refused@ == refused_devs(table@.take(i as int)),
                root_is_volume_root <==> exists|k: int|
                    0 <= k < i && paths::same((#[trigger] table@[k]).on@, root@),
            decreases table@.len() - i,
        {
            let m = &table[i];
            let ghost before = table@.take(i as int);
            let ghost after = table@.take(i + 1);
            let ghost groups = group_mounts@;
            let ghost notes = skipped@;
            proof {
                assert(after.drop_last() =~= before);
                assert(after.last() == *m);
                reveal(Seq::filter);
                lemma_allowed_step(table@, i as int, root_dev);
            }
            let at_root = paths::same_path(m.on.as_slice(), root);
            if at_root {
                root_is_volume_root = true;
            }
            match m.classify() {
                Ok(_) => {
                    allowed_devs.insert(m.dev);
                    if m.dev == root_dev && !at_root {
                        group_mounts.push(slice_to_vec(m.on.as_slice()));
                        assert(paths::contents(group_mounts@) =~= paths::contents(groups).push(
                            m.on@,
                        ));
                        assert(group_paths(after, root@, root_dev) =~= group_paths(
                            before,
                            root@,
                            root_dev,
                        ).push(m.on@));
                    }
                },
                Err(why) => {
                    skipped.push((slice_to_vec(m.on.as_slice()), why.as_str()));
                    refused.push((m.dev, why));
                    proof {
                        assert(notes_of(skipped@) =~= notes_of(notes).push(
                            (m.on@, mounts::reason_text(why)),
                        ));
                        assert(skip_notes(after) =~= skip_notes(before).push(
                            (m.on@, mounts::reason_text(why)),
                        ));
                        assert(refused_devs(after) =~= refused_devs(before).push((m.dev, why)));
                    }
                },
            }
            i = i + 1;
        }
        assert(table@.take(i as int) =~= table@);
        Plan { allowed_devs, group_mounts, skipped, refused, root_is_volume_root }
    }

    /// Whether a directory may be entered that lies on this device, where that
    /// is known.
    pub fn admits(&self, dev: Option<i32>) -> (r: bool)
        ensures
            r == self.lets_in(dev),
    {
        match dev {
            Some(d) => self.allowed_devs.contains(&d),
            None => true,
        }
    }

    /// The number of the reason why a device is not entered, or zero where the
    /// mount table gives none.
    pub fn reason_code(&self, dev: i32) -> (r: i32)
        ensures
            r == reason_from(self.refused@, dev, 0),
    {
        let mut i: usize = 0;
        while i < self.refused.len()
            invariant
                i <= self.refused@.len(),
                reason_from(self.refused@, dev, 0) == reason_from(self.refused@, dev, i as int),
            decreases self.refused@.len() - i,
        {
            if self.refused[i].0 == dev {
                return self.refused[i].1.code();
            }
            i = i + 1;
        }
        0
    }

    /// The number of the reason why a directory on this device is not entered, or
    /// nothing where it is.
    pub fn refuses(&self, dev: Option<i32>) -> (r: Option<i32>)
        ensures
            r is Some <==> !self.lets_in(dev),
            r matches Some(code) ==> code == reason_from(self.refused@, dev->0, 0),
    {
        match dev {
            Some(d) => {
                if self.admits(dev) {
                    None
                } else {
                    Some(self.reason_code(d))
                }
            },
            None => None,
        }
    }

    /// Whether the path is a mount point inside the volume group of the root.
    pub fn is_group_mount(&self, path: &[u8]) -> (r: bool)
        ensures
            r == self.in_group(path@),
    {
        let mut i: usize = 0;
        while i < self.group_mounts.len()
            invariant
                i <= self.group_mounts@.len(),
                forall|k: int|
                    0 <= k < i ==> !paths::same((#[trigger] self.group_mounts@[k])@, path@),
            decreases self.group_mounts@.len() - i,
        {
            if paths::same_path(self.group_mounts[i].as_slice(), path) {
                return true;
            }
            i = i + 1;
        }
        false
    }
}

proof fn lemma_allowed_step(table: Seq<Mount>, i: int, root_dev: i32)
    requires
        0 <= i < table.len(),
    ensures
        forall|d: i32|
            #![trigger allowed(table.take(i + 1), root_dev, d)]
            allowed(table.take(i + 1), root_dev, d) == (allowed(table.take(i), root_dev, d) || (
            table[i].refusal() is None && table[i].dev == d)),
{
    let before = table.take(i);
    let after = table.take(i + 1);
    assert forall|d: i32| #[trigger]
        allowed(after, root_dev, d) == (allowed(before, root_dev, d) || (table[i].refusal() is None
            && table[i].dev == d)) by {
        if allowed(before, root_dev, d) && d != root_dev {
            let k = choose|k: int|
                0 <= k < before.len() && (#[trigger] before[k]).refusal() is None && before[k].dev
                    == d;
            assert(after[k] == before[k]);
        }
        if table[i].refusal() is None && table[i].dev == d {
            assert(after[i] == table[i]);
        }
        if allowed(after, root_dev, d) && d != root_dev {
            let k = choose|k: int|
                0 <= k < after.len() && (#[trigger] after[k]).refusal() is None && after[k].dev
                    == d;
            if k < i {
                assert(before[k] == after[k]);
            }
        }
    }
}

} // verus!
